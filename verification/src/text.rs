//! Character-level helpers on strings: copying out the characters, comparing,
//! searching, lower-case hexadecimal encoding.

use vstd::prelude::*;

verus! {

/// The characters of a string slice, in order.
pub fn chars_of(s: &str) -> (v: Vec<char>)
    ensures
        v@ == s@,
{
    let n = s.unicode_len();
    let mut v: Vec<char> = Vec::new();
    let mut i: usize = 0;
    while i < n
        invariant
            n == s@.len(),
            i <= n,
            v@ == s@.subrange(0, i as int),
        decreases n - i,
    {
        v.push(s.get_char(i));
        i = i + 1;
    }
    v
}

/// Whether two string slices hold the same characters.
pub fn str_eq(a: &str, b: &str) -> (r: bool)
    ensures
        r == (a@ == b@),
{
    let va = chars_of(a);
    let vb = chars_of(b);
    if va.len() != vb.len() {
        return false;
    }
    let n = va.len();
    let mut i: usize = 0;
    while i < n
        invariant
            va@ == a@,
            vb@ == b@,
            n == va.len(),
            n == vb.len(),
            i <= n,
            forall|j: int| 0 <= j < i ==> va@[j] == vb@[j],
        decreases n - i,
    {
        if va[i] != vb[i] {
            return false;
        }
        i = i + 1;
    }
    assert(a@ =~= b@);
    true
}

/// The lower-case hexadecimal digit of a value below 16.
pub open spec fn hex_digit(n: u8) -> char {
    if n < 10 {
        (n + 48) as char
    } else {
        (n + 87) as char
    }
}

/// Lower-case hexadecimal text of a byte sequence: two digits per byte, the
/// high nibble first.
pub open spec fn hex_lower(data: Seq<u8>) -> Seq<char>
    decreases data.len(),
{
    if data.len() == 0 {
        Seq::empty()
    } else {
        hex_lower(data.drop_last()) + seq![
            hex_digit(data.last() / 16),
            hex_digit(data.last() % 16),
        ]
    }
}

fn hex_digit_str(n: u8) -> (s: &'static str)
    requires
        n < 16,
    ensures
        s@ == seq![hex_digit(n)],
{
    proof {
        reveal_strlit("0");
        reveal_strlit("1");
        reveal_strlit("2");
        reveal_strlit("3");
        reveal_strlit("4");
        reveal_strlit("5");
        reveal_strlit("6");
        reveal_strlit("7");
        reveal_strlit("8");
        reveal_strlit("9");
        reveal_strlit("a");
        reveal_strlit("b");
        reveal_strlit("c");
        reveal_strlit("d");
        reveal_strlit("e");
        reveal_strlit("f");
    }
    let s = match n {
        0 => "0",
        1 => "1",
        2 => "2",
        3 => "3",
        4 => "4",
        5 => "5",
        6 => "6",
        7 => "7",
        8 => "8",
        9 => "9",
        10 => "a",
        11 => "b",
        12 => "c",
        13 => "d",
        14 => "e",
        _ => "f",
    };
    assert(s@ =~= seq![hex_digit(n)]);
    s
}

/// Encodes bytes as lower-case hexadecimal text, two digits per byte.
pub fn hex_lower_string(data: &[u8]) -> (s: String)
    ensures
        s@ == hex_lower(data@),
        s@.len() == 2 * data@.len(),
{
    let mut s = String::new();
    let n = data.len();
    let mut i: usize = 0;
    while i < n
        invariant
            n == data@.len(),
            i <= n,
            s@ == hex_lower(data@.take(i as int)),
            s@.len() == 2 * i,
        decreases n - i,
    {
        let b = data[i];
        s.append(hex_digit_str(b / 16));
        s.append(hex_digit_str(b % 16));
        assert(data@.take(i + 1).drop_last() =~= data@.take(i as int));
        i = i + 1;
    }
    assert(data@.take(n as int) =~= data@);
    s
}

/// Where `key` stands among the keys of `pairs`, if it does.
pub fn find_key<V>(pairs: &Vec<(String, V)>, key: &str) -> (r: Option<usize>)
    ensures
        match r {
            Some(a) => a < pairs@.len() && pairs@[a as int].0@ == key@,
            None => forall|a: int| 0 <= a < pairs@.len() ==> pairs@[a].0@ != key@,
        },
{
    let mut a: usize = 0;
    while a < pairs.len()
        invariant
            a <= pairs@.len(),
            forall|b: int| 0 <= b < a ==> pairs@[b].0@ != key@,
        decreases pairs@.len() - a,
    {
        if str_eq(pairs[a].0.as_str(), key) {
            return Some(a);
        }
        a = a + 1;
    }
    None
}

/// Where `key` stands in `v`, if it does.
pub fn find_text(v: &Vec<String>, key: &str) -> (r: Option<usize>)
    ensures
        match r {
            Some(a) => a < v@.len() && v@[a as int]@ == key@,
            None => forall|a: int| 0 <= a < v@.len() ==> v@[a]@ != key@,
        },
{
    let mut a: usize = 0;
    while a < v.len()
        invariant
            a <= v@.len(),
            forall|b: int| 0 <= b < a ==> v@[b]@ != key@,
        decreases v@.len() - a,
    {
        if str_eq(v[a].as_str(), key) {
            return Some(a);
        }
        a = a + 1;
    }
    None
}

/// The views of a sequence of strings.
pub open spec fn texts(v: Seq<String>) -> Seq<Seq<char>> {
    v.map_values(|s: String| s@)
}

/// Whether some string of `files` equals `file`.
pub fn contains_text(files: &Vec<String>, file: &str) -> (r: bool)
    ensures
        r == texts(files@).contains(file@),
{
    let mut i: usize = 0;
    while i < files.len()
        invariant
            i <= files@.len(),
            forall|j: int| 0 <= j < i ==> files@[j]@ != file@,
        decreases files@.len() - i,
    {
        if str_eq(files[i].as_str(), file) {
            assert(texts(files@)[i as int] == file@);
            return true;
        }
        i = i + 1;
    }
    proof {
        if texts(files@).contains(file@) {
            let j = choose|j: int| 0 <= j < texts(files@).len() && texts(files@)[j] == file@;
            assert(files@[j]@ == file@);
        }
    }
    false
}

} // verus!
