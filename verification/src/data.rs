//! The rules that measured impedance data must follow: which files hold it,
//! the header of such a file, and how the lengths of its columns relate.
use vstd::prelude::*;
use vstd::string::*;

verus! {

/// An ASCII upper-case letter in lower case; any other character unchanged.
pub open spec fn ascii_lower(c: char) -> char {
    if 'A' <= c <= 'Z' {
        ((c as int) + 32) as char
    } else {
        c
    }
}

/// A string with its ASCII letters in lower case.
pub open spec fn ascii_lowercase(s: Seq<char>) -> Seq<char> {
    s.map_values(|c: char| ascii_lower(c))
}

/// A file extension of a data file: `txt` or `csv`, in any ASCII case.
pub open spec fn is_data_extension_spec(ext: Seq<char>) -> bool {
    ascii_lowercase(ext) == seq!['t', 'x', 't'] || ascii_lowercase(ext) == seq!['c', 's', 'v']
}

/// The header of a data file: frequency, real part, negated imaginary part.
pub open spec fn impedance_header() -> Seq<Seq<char>> {
    seq![seq!['f'], seq!['Z', '\''], seq!['-', 'Z', '\'', '\'']]
}

/// The characters of each field.
pub open spec fn field_texts(fields: Seq<String>) -> Seq<Seq<char>> {
    fields.map_values(|f: String| f@)
}

/// Lower-casing twice changes nothing more.
proof fn lemma_lowercase_idempotent(e: Seq<char>)
    ensures
        ascii_lowercase(ascii_lowercase(e)) == ascii_lowercase(e),
{
    assert(ascii_lowercase(ascii_lowercase(e)) =~= ascii_lowercase(e));
}

/// Whether an extension names a data file depends only on its ASCII lower
/// case form; `txt` and `csv` do, and in lower case nothing else does.
pub proof fn lemma_data_extension_case(e: Seq<char>)
    ensures
        is_data_extension_spec(e) == is_data_extension_spec(ascii_lowercase(e)),
        is_data_extension_spec(seq!['t', 'x', 't']),
        is_data_extension_spec(seq!['c', 's', 'v']),
        e == ascii_lowercase(e) && is_data_extension_spec(e) ==> e == seq!['t', 'x', 't'] || e
            == seq!['c', 's', 'v'],
{
    lemma_lowercase_idempotent(e);
    assert(ascii_lowercase(seq!['t', 'x', 't']) =~= seq!['t', 'x', 't']);
    assert(ascii_lowercase(seq!['c', 's', 'v']) =~= seq!['c', 's', 'v']);
}

/// Whether `c`, in lower case, is `lower` (an ASCII lower-case letter).
fn is_letter(c: char, lower: char) -> (b: bool)
    requires
        'a' <= lower <= 'z',
    ensures
        b == (ascii_lower(c) == lower),
{
    let upper = ((lower as u8) - 32) as char;
    c == lower || c == upper
}

/// Whether `ext` names a data file: `txt` or `csv`, in any ASCII case.
pub fn is_data_extension(ext: &str) -> (b: bool)
    ensures
        b == is_data_extension_spec(ext@),
{
    let n = ext.unicode_len();
    if n != 3 {
        proof {
            assert(ascii_lowercase(ext@).len() == ext@.len());
            assert(seq!['t', 'x', 't'].len() == 3);
            assert(seq!['c', 's', 'v'].len() == 3);
        }
        return false;
    }
    let c0 = ext.get_char(0);
    let c1 = ext.get_char(1);
    let c2 = ext.get_char(2);
    let txt = is_letter(c0, 't') && is_letter(c1, 'x') && is_letter(c2, 't');
    let csv = is_letter(c0, 'c') && is_letter(c1, 's') && is_letter(c2, 'v');
    proof {
        let low = ascii_lowercase(ext@);
        assert(low.len() == 3);
        assert(low[0] == ascii_lower(c0) && low[1] == ascii_lower(c1) && low[2] == ascii_lower(c2));
        assert(txt == (low =~= seq!['t', 'x', 't']));
        assert(csv == (low =~= seq!['c', 's', 'v']));
    }
    txt || csv
}

/// Whether the characters of `s` are exactly `expected`.
fn text_is(s: &str, expected: &[char]) -> (b: bool)
    ensures
        b == (s@ == expected@),
{
    let n = s.unicode_len();
    if n != expected.len() {
        return false;
    }
    let mut i: usize = 0;
    while i < n
        invariant
            n == s@.len(),
            n == expected@.len(),
            i <= n,
            forall|j: int| 0 <= j < i ==> s@[j] == expected@[j],
        decreases n - i,
    {
        if s.get_char(i) != expected[i] {
            return false;
        }
        i = i + 1;
    }
    assert(s@ =~= expected@);
    true
}

/// Whether `fields` is the header of a data file: `f`, `Z'`, `-Z''`.
pub fn is_impedance_header(fields: &Vec<String>) -> (b: bool)
    ensures
        b == (field_texts(fields@) == impedance_header()),
{
    proof {
        assert(impedance_header().len() == 3);
    }
    if fields.len() != 3 {
        return false;
    }
    let frequency = ['f'];
    let real_part = ['Z', '\''];
    let imaginary = ['-', 'Z', '\'', '\''];
    let f0 = text_is(fields[0].as_str(), frequency.as_slice());
    let f1 = text_is(fields[1].as_str(), real_part.as_slice());
    let f2 = text_is(fields[2].as_str(), imaginary.as_slice());
    proof {
        assert(frequency@ =~= impedance_header()[0]);
        assert(real_part@ =~= impedance_header()[1]);
        assert(imaginary@ =~= impedance_header()[2]);
        let texts = field_texts(fields@);
        assert(texts[0] == fields@[0]@ && texts[1] == fields@[1]@ && texts[2] == fields@[2]@);
        assert((f0 && f1 && f2) == (texts =~= impedance_header()));
    }
    f0 && f1 && f2
}

/// Whether the columns of a data set have matching lengths: as many measured
/// impedances as frequencies, and as many predicted ones, where there are
/// predictions.
pub fn lengths_agree(frequencies: usize, measured: usize, predicted: Option<usize>) -> (b: bool)
    ensures
        b == (measured == frequencies && (predicted matches Some(n) ==> n == frequencies)),
{
    measured == frequencies && match predicted {
        Some(n) => n == frequencies,
        None => true,
    }
}

} // verus!
