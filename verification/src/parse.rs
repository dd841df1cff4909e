use vstd::prelude::*;

verus! {

/// A decimal digit, as a character.
pub open spec fn is_digit(c: char) -> bool {
    48 <= c as u32 <= 57
}

/// All characters are decimal digits.
pub open spec fn is_digits(s: Seq<char>) -> bool {
    forall|i: int| 0 <= i < s.len() ==> is_digit(#[trigger] s[i])
}

/// The number that a sequence of decimal digits denotes.
pub open spec fn spec_dec_val(s: Seq<char>) -> int
    decreases s.len(),
{
    if s.len() == 0 {
        0
    } else {
        spec_dec_val(s.drop_last()) * 10 + (s.last() as u32 - 48)
    }
}

proof fn lemma_dec_val_nonneg(s: Seq<char>)
    requires
        is_digits(s),
    ensures
        spec_dec_val(s) >= 0,
    decreases s.len(),
{
    if s.len() > 0 {
        assert(forall|i: int| 0 <= i < s.drop_last().len() ==> s.drop_last()[i] == s[i]);
        lemma_dec_val_nonneg(s.drop_last());
    }
}

/// A digit string denotes at least as much as any of its prefixes.
proof fn lemma_dec_val_prefix(s: Seq<char>, i: int)
    requires
        is_digits(s),
        0 <= i <= s.len(),
    ensures
        spec_dec_val(s.take(i)) <= spec_dec_val(s),
    decreases s.len() - i,
{
    if i == s.len() {
        assert(s.take(i) =~= s);
    } else {
        lemma_dec_val_prefix(s, i + 1);
        assert(s.take(i + 1).drop_last() =~= s.take(i));
        assert(s.take(i + 1).last() == s[i]);
        assert(forall|j: int| 0 <= j < i ==> s.take(i)[j] == s[j]);
        lemma_dec_val_nonneg(s.take(i));
        assert(spec_dec_val(s.take(i)) * 10 + (s[i] as u32 - 48) >= spec_dec_val(s.take(i)));
    }
}

/// The number a token denotes, when it is a nonempty string of decimal digits
/// whose value fits in `usize`.
pub open spec fn spec_parse_usize(s: Seq<char>) -> Option<usize> {
    if s.len() > 0 && is_digits(s) && spec_dec_val(s) <= usize::MAX {
        Some(spec_dec_val(s) as usize)
    } else {
        None
    }
}

/// The number a token denotes, when it is a nonempty string of decimal digits
/// whose value fits in `u32`.
pub open spec fn spec_parse_u32(s: Seq<char>) -> Option<u32> {
    if s.len() > 0 && is_digits(s) && spec_dec_val(s) <= u32::MAX {
        Some(spec_dec_val(s) as u32)
    } else {
        None
    }
}

/// Parses a nonempty all-digit decimal token; rejects anything else, and any
/// value that does not fit in `usize`.
pub fn parse_usize(s: &str) -> (r: Option<usize>)
    ensures
        r == spec_parse_usize(s@),
{
    let n = s.unicode_len();
    if n == 0 {
        return None;
    }
    let mut i: usize = 0;
    while i < n
        invariant
            i <= n,
            n == s@.len(),
            forall|j: int| 0 <= j < i ==> is_digit(#[trigger] s@[j]),
        decreases n - i,
    {
        let c = s.get_char(i);
        let v = c as u32;
        if v < 48 || v > 57 {
            return None;
        }
        i = i + 1;
    }
    let mut acc: usize = 0;
    let mut k: usize = 0;
    while k < n
        invariant
            k <= n,
            n == s@.len(),
            is_digits(s@),
            acc == spec_dec_val(s@.take(k as int)),
            spec_dec_val(s@.take(k as int)) <= usize::MAX,
        decreases n - k,
    {
        let c = s.get_char(k);
        let d = (c as u32 - 48) as usize;
        let next = match acc.checked_mul(10) {
            Some(m) => m.checked_add(d),
            None => None,
        };
        proof {
            assert(s@.take(k + 1).drop_last() =~= s@.take(k as int));
            assert(s@.take(k + 1).last() == s@[k as int]);
        }
        match next {
            Some(t) => {
                acc = t;
            },
            None => {
                proof {
                    lemma_dec_val_prefix(s@, k + 1);
                }
                return None;
            },
        }
        k = k + 1;
    }
    proof {
        assert(s@.take(n as int) =~= s@);
    }
    Some(acc)
}

/// Parses a nonempty all-digit decimal token whose value fits in `u32`.
pub fn parse_u32(s: &str) -> (r: Option<u32>)
    ensures
        r == spec_parse_u32(s@),
{
    proof {
        assert(u32::MAX as int <= usize::MAX as int);
    }
    match parse_usize(s) {
        Some(v) => {
            proof {
                lemma_dec_val_nonneg(s@);
            }
            if v <= u32::MAX as usize {
                proof {
                    assert(spec_parse_u32(s@) == Some(v as u32));
                }
                Some(v as u32)
            } else {
                proof {
                    assert(spec_dec_val(s@) > u32::MAX);
                    assert(spec_parse_u32(s@) == None::<u32>);
                }
                None
            }
        },
        None => {
            proof {
                assert(spec_parse_u32(s@) == None::<u32>);
            }
            None
        },
    }
}

/// Splits a token on its single space: the parts before and after, or nothing
/// when the token has no space or more than one.
pub open spec fn spec_split_header(h: Seq<char>) -> Option<(Seq<char>, Seq<char>)> {
    match h.index_of_first(' ') {
        None => None,
        Some(i) => {
            if h.skip(i + 1).contains(' ') {
                None
            } else {
                Some((h.take(i), h.skip(i + 1)))
            }
        },
    }
}

/// Index of the first occurrence of `c` in `s`, or `s@.len()` when absent.
fn find_char(s: &str, c: char) -> (r: usize)
    ensures
        r <= s@.len(),
        forall|j: int| 0 <= j < r ==> s@[j] != c,
        r < s@.len() ==> s@[r as int] == c,
{
    let n = s.unicode_len();
    let mut i: usize = 0;
    while i < n
        invariant
            i <= n,
            n == s@.len(),
            forall|j: int| 0 <= j < i ==> s@[j] != c,
        decreases n - i,
    {
        if s.get_char(i) == c {
            return i;
        }
        i = i + 1;
    }
    i
}

/// Splits `h` on its single space, per `spec_split_header`.
pub fn split_header(h: &str) -> (r: Option<(String, String)>)
    ensures
        match r {
            Some(p) => spec_split_header(h@) == Some((p.0@, p.1@)),
            None => spec_split_header(h@) == None::<(Seq<char>, Seq<char>)>,
        },
{
    proof {
        h@.index_of_first_ensures(' ');
    }
    let n = h.unicode_len();
    let i = find_char(h, ' ');
    if i == n {
        proof {
            assert(!h@.contains(' '));
        }
        return None;
    }
    proof {
        assert(h@.index_of_first(' ') == Some(i as int));
    }
    let mut j: usize = i + 1;
    while j < n
        invariant
            i + 1 <= j <= n,
            n == h@.len(),
            i < n,
            h@.index_of_first(' ') == Some(i as int),
            forall|k: int| i < k < j ==> h@[k] != ' ',
        decreases n - j,
    {
        if h.get_char(j) == ' ' {
            proof {
                assert(h@.skip(i + 1)[j - i - 1] == h@[j as int]);
                assert(h@.skip(i + 1).contains(' '));
            }
            return None;
        }
        j = j + 1;
    }
    proof {
        assert forall|k: int| 0 <= k < h@.skip(i + 1).len() implies #[trigger] h@.skip(i + 1)[k] != ' ' by {
            assert(h@.skip(i + 1)[k] == h@[i + 1 + k]);
        }
        assert(!h@.skip(i + 1).contains(' '));
    }
    let a = h.substring_char(0, i).to_owned();
    let b = h.substring_char(i + 1, n).to_owned();
    proof {
        assert(a@ =~= h@.take(i as int));
        assert(b@ =~= h@.skip(i + 1));
    }
    Some((a, b))
}

/// `l` starts with the characters of `p`.
pub open spec fn spec_starts(l: Seq<char>, p: Seq<char>) -> bool {
    l.len() >= p.len() && l.take(p.len() as int) == p
}

/// When `line` starts with `key`, the rest of the line after it; otherwise
/// nothing.
pub fn strip_key(line: &str, key: &str) -> (r: Option<String>)
    ensures
        match r {
            Some(v) => spec_starts(line@, key@) && v@ == line@.skip(key@.len() as int),
            None => !spec_starts(line@, key@),
        },
{
    let nl = line.unicode_len();
    let nk = key.unicode_len();
    if nl < nk {
        return None;
    }
    let mut i: usize = 0;
    while i < nk
        invariant
            i <= nk,
            nk == key@.len(),
            nl == line@.len(),
            nk <= nl,
            forall|j: int| 0 <= j < i ==> line@[j] == key@[j],
        decreases nk - i,
    {
        if line.get_char(i) != key.get_char(i) {
            proof {
                assert(line@.take(nk as int)[i as int] == line@[i as int]);
            }
            return None;
        }
        i = i + 1;
    }
    proof {
        assert(line@.take(nk as int) =~= key@);
    }
    let v = line.substring_char(nk, nl).to_owned();
    proof {
        assert(v@ =~= line@.skip(nk as int));
    }
    Some(v)
}

/// Character-for-character string equality.
pub fn str_eq(a: &str, b: &str) -> (r: bool)
    ensures
        r == (a@ == b@),
{
    let na = a.unicode_len();
    let nb = b.unicode_len();
    if na != nb {
        return false;
    }
    let mut i: usize = 0;
    while i < na
        invariant
            i <= na,
            na == a@.len(),
            nb == b@.len(),
            na == nb,
            forall|j: int| 0 <= j < i ==> a@[j] == b@[j],
        decreases na - i,
    {
        if a.get_char(i) != b.get_char(i) {
            return false;
        }
        i = i + 1;
    }
    proof {
        assert(a@ =~= b@);
    }
    true
}

/// The character for one hex digit value, lowercase.
pub open spec fn hex_digit(n: u8) -> char {
    if n < 10 {
        ((n + 48) as u32) as char
    } else {
        ((n + 87) as u32) as char
    }
}

/// The lowercase hex rendering of a byte sequence, two characters per byte.
pub open spec fn spec_hex(s: Seq<u8>) -> Seq<char>
    decreases s.len(),
{
    if s.len() == 0 {
        Seq::empty()
    } else {
        spec_hex(s.drop_last()) + seq![hex_digit(s.last() / 16), hex_digit(s.last() % 16)]
    }
}

fn hex_digit_str(n: u8) -> (r: &'static str)
    requires
        n < 16,
    ensures
        r@ == seq![hex_digit(n)],
{
    proof {
        reveal_strlit("0");
        reveal_strlit("1");
        reveal_strlit("2");
        reveal_strlit("3");
        reveal_strlit("4");
        reveal_strlit("5");
        reveal_strlit("6");
        reveal_strlit("7");
        reveal_strlit("8");
        reveal_strlit("9");
        reveal_strlit("a");
        reveal_strlit("b");
        reveal_strlit("c");
        reveal_strlit("d");
        reveal_strlit("e");
        reveal_strlit("f");
    }
    match n {
        0 => "0",
        1 => "1",
        2 => "2",
        3 => "3",
        4 => "4",
        5 => "5",
        6 => "6",
        7 => "7",
        8 => "8",
        9 => "9",
        10 => "a",
        11 => "b",
        12 => "c",
        13 => "d",
        14 => "e",
        _ => "f",
    }
}

/// Renders bytes as lowercase hex text.
pub fn hex_string(bytes: &Vec<u8>) -> (r: String)
    ensures
        r@ == spec_hex(bytes@),
{
    let mut r = String::new();
    let mut i: usize = 0;
    while i < bytes.len()
        invariant
            i <= bytes@.len(),
            r@ == spec_hex(bytes@.take(i as int)),
        decreases bytes@.len() - i,
    {
        let b = bytes[i];
        r.append(hex_digit_str(b / 16));
        r.append(hex_digit_str(b % 16));
        i = i + 1;
        proof {
            assert(bytes@.take(i as int).drop_last() =~= bytes@.take(i - 1));
            assert(bytes@.take(i as int).last() == bytes@[i - 1]);
            assert(r@ =~= spec_hex(bytes@.take(i as int)));
        }
    }
    proof {
        assert(bytes@.take(bytes@.len() as int) =~= bytes@);
    }
    r
}

} // verus!
