//! String helpers for the discovery pipeline: ASCII case-insensitive key
//! comparison (DNS names compare case-insensitively), lexicographic ordering
//! by code point, suffix stripping for instance names, and decimal rendering
//! of ports.

use vstd::prelude::*;
use vstd::string::{StrSliceExecFns, StringExecFns};

verus! {

/// The case-folded code point of one character: ASCII upper-case letters map
/// to their lower-case counterparts, everything else to itself.
pub open spec fn lower_code(c: char) -> int {
    if 'A' <= c && c <= 'Z' {
        c as int + 32
    } else {
        c as int
    }
}

/// The case-insensitive lookup key of a name: its characters, case-folded.
pub open spec fn key_of(s: Seq<char>) -> Seq<int> {
    s.map_values(|c: char| lower_code(c))
}

/// Whether characters `x` and `y` are equal up to ASCII case.
fn chars_eq_ignore_case(x: char, y: char) -> (r: bool)
    ensures
        r == (lower_code(x) == lower_code(y)),
{
    let xl: u32 = if 'A' <= x && x <= 'Z' {
        x as u32 + 32
    } else {
        x as u32
    };
    let yl: u32 = if 'A' <= y && y <= 'Z' {
        y as u32 + 32
    } else {
        y as u32
    };
    xl == yl
}

/// Whether two strings are equal up to ASCII case, i.e. have the same
/// case-insensitive key.
pub fn str_eq_ignore_case(a: &str, b: &str) -> (r: bool)
    ensures
        r == (key_of(a@) == key_of(b@)),
{
    let an = a.unicode_len();
    let bn = b.unicode_len();
    if an != bn {
        proof {
            assert(key_of(a@).len() != key_of(b@).len());
        }
        return false;
    }
    let mut i: usize = 0;
    while i < an
        invariant
            an == a@.len(),
            an == b@.len(),
            i <= an,
            forall|k: int| 0 <= k < i ==> key_of(a@)[k] == key_of(b@)[k],
        decreases an - i,
    {
        if !chars_eq_ignore_case(a.get_char(i), b.get_char(i)) {
            proof {
                assert(key_of(a@)[i as int] != key_of(b@)[i as int]);
            }
            return false;
        }
        i = i + 1;
    }
    proof {
        assert(key_of(a@) =~= key_of(b@));
    }
    true
}

/// Whether two strings hold exactly the same characters.
pub fn str_eq(a: &str, b: &str) -> (r: bool)
    ensures
        r == (a@ == b@),
{
    let an = a.unicode_len();
    let bn = b.unicode_len();
    if an != bn {
        return false;
    }
    let mut i: usize = 0;
    while i < an
        invariant
            an == a@.len(),
            an == b@.len(),
            i <= an,
            forall|k: int| 0 <= k < i ==> a@[k] == b@[k],
        decreases an - i,
    {
        if a.get_char(i) != b.get_char(i) {
            return false;
        }
        i = i + 1;
    }
    proof {
        assert(a@ =~= b@);
    }
    true
}

/// Lexicographic order on character sequences by code point; the order in
/// which discovered services are listed.
pub open spec fn seq_le(a: Seq<char>, b: Seq<char>) -> bool
    decreases a.len(),
{
    if a.len() == 0 {
        true
    } else if b.len() == 0 {
        false
    } else if a[0] != b[0] {
        (a[0] as int) < (b[0] as int)
    } else {
        seq_le(a.drop_first(), b.drop_first())
    }
}

/// Whether `a` precedes or equals `b` in lexicographic code-point order.
pub fn str_le(a: &str, b: &str) -> (r: bool)
    ensures
        r == seq_le(a@, b@),
{
    let an = a.unicode_len();
    let bn = b.unicode_len();
    let mut i: usize = 0;
    proof {
        assert(a@.skip(0) =~= a@);
        assert(b@.skip(0) =~= b@);
    }
    loop
        invariant
            an == a@.len(),
            bn == b@.len(),
            i <= an,
            i <= bn,
            seq_le(a@, b@) == seq_le(a@.skip(i as int), b@.skip(i as int)),
        decreases an - i,
    {
        if i == an {
            proof {
                assert(seq_le(a@.skip(i as int), b@.skip(i as int)));
            }
            return true;
        }
        if i == bn {
            proof {
                assert(!seq_le(a@.skip(i as int), b@.skip(i as int)));
            }
            return false;
        }
        let ca = a.get_char(i);
        let cb = b.get_char(i);
        proof {
            assert(a@.skip(i as int)[0] == ca);
            assert(b@.skip(i as int)[0] == cb);
            assert(a@.skip(i as int).drop_first() =~= a@.skip(i as int + 1));
            assert(b@.skip(i as int).drop_first() =~= b@.skip(i as int + 1));
        }
        if ca != cb {
            return (ca as u32) < (cb as u32);
        }
        i = i + 1;
    }
}

/// The display name hidden in a fully-qualified discovery name: the name with
/// the namespace suffix and the dot before it stripped; a name that does not
/// carry the suffix is returned whole.
pub open spec fn instance_of(full: Seq<char>, dom: Seq<char>) -> Seq<char> {
    if full.len() > dom.len() && full.skip(full.len() - dom.len()) == dom && full[full.len()
        - dom.len() - 1] == '.' {
        full.take(full.len() - dom.len() - 1)
    } else {
        full
    }
}

/// Strips the trailing `.<dom>` from `full`, per `instance_of`.
pub fn instance_from_fullname(full: &str, dom: &str) -> (r: String)
    ensures
        r@ == instance_of(full@, dom@),
{
    let full_len = full.unicode_len();
    let dom_len = dom.unicode_len();
    if full_len <= dom_len {
        return full.to_owned();
    }
    let off = full_len - dom_len;
    let mut k: usize = 0;
    while k < dom_len
        invariant
            full_len == full@.len(),
            dom_len == dom@.len(),
            dom_len < full_len,
            off == full_len - dom_len,
            k <= dom_len,
            forall|j: int| 0 <= j < k ==> full@[off + j] == dom@[j],
        decreases dom_len - k,
    {
        if full.get_char(off + k) != dom.get_char(k) {
            proof {
                assert(full@.skip(off as int)[k as int] != dom@[k as int]);
            }
            return full.to_owned();
        }
        k = k + 1;
    }
    proof {
        assert(full@.skip(off as int) =~= dom@);
    }
    if full.get_char(off - 1) != '.' {
        return full.to_owned();
    }
    full.substring_char(0, off - 1).to_owned()
}

/// The character for one decimal digit.
pub open spec fn digit_char(d: int) -> char {
    if d == 0 {
        '0'
    } else if d == 1 {
        '1'
    } else if d == 2 {
        '2'
    } else if d == 3 {
        '3'
    } else if d == 4 {
        '4'
    } else if d == 5 {
        '5'
    } else if d == 6 {
        '6'
    } else if d == 7 {
        '7'
    } else if d == 8 {
        '8'
    } else {
        '9'
    }
}

/// The usual decimal rendering of a number, most significant digit first and
/// without leading zeros (zero itself prints as "0").
pub open spec fn spec_decimal(n: nat) -> Seq<char>
    decreases n,
{
    if n < 10 {
        seq![digit_char(n as int)]
    } else {
        spec_decimal(n / 10).push(digit_char((n % 10) as int))
    }
}

fn digit_str(d: u16) -> (r: &'static str)
    requires
        d < 10,
    ensures
        r@ =~= seq![digit_char(d as int)],
{
    proof {
        reveal_strlit("0");
        reveal_strlit("1");
        reveal_strlit("2");
        reveal_strlit("3");
        reveal_strlit("4");
        reveal_strlit("5");
        reveal_strlit("6");
        reveal_strlit("7");
        reveal_strlit("8");
        reveal_strlit("9");
    }
    match d {
        0 => "0",
        1 => "1",
        2 => "2",
        3 => "3",
        4 => "4",
        5 => "5",
        6 => "6",
        7 => "7",
        8 => "8",
        _ => "9",
    }
}

/// Renders a port number in decimal, exactly as `spec_decimal` says.
pub fn u16_to_string(n: u16) -> (r: String)
    ensures
        r@ == spec_decimal(n as nat),
    decreases n,
{
    if n < 10 {
        digit_str(n).to_owned()
    } else {
        let prefix = u16_to_string(n / 10);
        let last = digit_str(n % 10);
        let r = prefix.concat(last);
        proof {
            assert(r@ =~= spec_decimal((n / 10) as nat).push(digit_char((n % 10) as int)));
        }
        r
    }
}

} // verus!
