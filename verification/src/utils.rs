use vstd::prelude::*;

use crate::block::read_range;
use crate::errors::BitCaskError;
use crate::lex::{clone_bytes, key_cmp, lex_lt};

verus! {

pub open spec fn is_digit(b: u8) -> bool {
    48 <= b <= 57
}

pub open spec fn all_digits(s: Seq<u8>) -> bool {
    forall|i: int| 0 <= i < s.len() ==> is_digit(#[trigger] s[i])
}

/// The number denoted by a sequence of decimal digit bytes.
pub open spec fn digits_val(s: Seq<u8>) -> int
    decreases s.len(),
{
    if s.len() == 0 {
        0
    } else {
        digits_val(s.drop_last()) * 10 + (s.last() - 48)
    }
}

pub proof fn lemma_digits_val_nonneg(s: Seq<u8>)
    requires
        all_digits(s),
    ensures
        digits_val(s) >= 0,
    decreases s.len(),
{
    if s.len() > 0 {
        assert(all_digits(s.drop_last())) by {
            assert(forall|i: int| 0 <= i < s.len() - 1 ==> s.drop_last()[i] == s[i]);
        }
        lemma_digits_val_nonneg(s.drop_last());
    }
}

/// Extending a digit string to the right can only increase its value.
pub proof fn lemma_digits_val_prefix(s: Seq<u8>, i: int)
    requires
        all_digits(s),
        0 <= i <= s.len(),
    ensures
        digits_val(s) >= digits_val(s.subrange(0, i)),
    decreases s.len() - i,
{
    if i < s.len() {
        lemma_digits_val_prefix(s, i + 1);
        let p = s.subrange(0, i);
        let q = s.subrange(0, i + 1);
        assert(q.drop_last() =~= p);
        assert(all_digits(p)) by {
            assert(forall|j: int| 0 <= j < i ==> p[j] == s[j]);
        }
        lemma_digits_val_nonneg(p);
        assert(digits_val(q) == digits_val(p) * 10 + (s[i] - 48));
    } else {
        assert(s.subrange(0, i) =~= s);
    }
}

/// The decimal digit byte of `id` at divisor `p` (a power of ten).
pub open spec fn spec_digit_at(id: u32, p: u32) -> u8 {
    (48 + (id / p) % 10) as u8
}

/// The decimal digits of `id`, zero-padded on the left to a width of nine;
/// ids of a billion or more keep all ten digits.
pub open spec fn spec_stem9(id: u32) -> Seq<u8> {
    if id >= 1000000000 {
        seq![
            spec_digit_at(id, 1000000000),
            spec_digit_at(id, 100000000),
            spec_digit_at(id, 10000000),
            spec_digit_at(id, 1000000),
            spec_digit_at(id, 100000),
            spec_digit_at(id, 10000),
            spec_digit_at(id, 1000),
            spec_digit_at(id, 100),
            spec_digit_at(id, 10),
            spec_digit_at(id, 1),
        ]
    } else {
        seq![
            spec_digit_at(id, 100000000),
            spec_digit_at(id, 10000000),
            spec_digit_at(id, 1000000),
            spec_digit_at(id, 100000),
            spec_digit_at(id, 10000),
            spec_digit_at(id, 1000),
            spec_digit_at(id, 100),
            spec_digit_at(id, 10),
            spec_digit_at(id, 1),
        ]
    }
}

/// The bytes of ".dat".
pub open spec fn dat_suffix() -> Seq<u8> {
    seq![46u8, 100u8, 97u8, 116u8]
}

/// The bytes of ".idx".
pub open spec fn idx_suffix() -> Seq<u8> {
    seq![46u8, 105u8, 100u8, 120u8]
}

fn push_stem9(out: &mut Vec<u8>, id: u32)
    ensures
        final(out)@ == old(out)@ + spec_stem9(id),
{
    if id >= 1000000000 {
        out.push(48 + ((id / 1000000000) % 10) as u8);
    }
    out.push(48 + ((id / 100000000) % 10) as u8);
    out.push(48 + ((id / 10000000) % 10) as u8);
    out.push(48 + ((id / 1000000) % 10) as u8);
    out.push(48 + ((id / 100000) % 10) as u8);
    out.push(48 + ((id / 10000) % 10) as u8);
    out.push(48 + ((id / 1000) % 10) as u8);
    out.push(48 + ((id / 100) % 10) as u8);
    out.push(48 + ((id / 10) % 10) as u8);
    out.push(48 + (id % 10) as u8);
    proof {
        assert(out@ =~= old(out)@ + spec_stem9(id));
    }
}

/// The file name of the segment with this id: the zero-padded decimal id
/// followed by ".dat".
pub fn format_dat_file_name(file_id: u32) -> (r: Vec<u8>)
    ensures
        r@ == spec_stem9(file_id) + dat_suffix(),
{
    let mut out: Vec<u8> = Vec::new();
    push_stem9(&mut out, file_id);
    out.push(46);
    out.push(100);
    out.push(97);
    out.push(116);
    proof {
        assert(out@ =~= spec_stem9(file_id) + dat_suffix());
    }
    out
}

/// The file name of the hint file paired with this id: the zero-padded
/// decimal id followed by ".idx".
pub fn format_idx_file_name(file_id: u32) -> (r: Vec<u8>)
    ensures
        r@ == spec_stem9(file_id) + idx_suffix(),
{
    let mut out: Vec<u8> = Vec::new();
    push_stem9(&mut out, file_id);
    out.push(46);
    out.push(105);
    out.push(100);
    out.push(120);
    proof {
        assert(out@ =~= spec_stem9(file_id) + idx_suffix());
    }
    out
}

/// Relies on std::time::SystemTime::now and duration_since the Unix epoch:
/// the current time in whole seconds, truncated to u32. A host clock that
/// reads before the epoch yields zero rather than aborting. No contract
/// can pin the clock's reading.
#[verifier::external_body]
pub fn now_ts() -> u32 {
    match std::time::SystemTime::now().duration_since(std::time::UNIX_EPOCH) {
        Ok(d) => d.as_secs() as u32,
        Err(_) => 0,
    }
}

/// The index of the last dot at position `i` or before, or -1 if none.
pub open spec fn last_dot_from(s: Seq<u8>, i: int) -> int
    decreases i + 1,
{
    if i < 0 || i >= s.len() {
        -1
    } else if s[i] == 46 {
        i
    } else {
        last_dot_from(s, i - 1)
    }
}

/// A file name's stem: everything before the last dot, except that a name
/// without a dot, or with its only dot in front, is its own stem.
pub open spec fn stem_of(s: Seq<u8>) -> Seq<u8> {
    let d = last_dot_from(s, s.len() - 1);
    if d <= 0 {
        s
    } else {
        s.subrange(0, d)
    }
}

/// Finds the index just past the last dot usable as an extension separator:
/// 0 when the name has no dot after its first byte.
fn find_last_dot(name: &Vec<u8>) -> (d: i64)
    requires
        name@.len() <= u32::MAX,
    ensures
        d == last_dot_from(name@, name@.len() - 1),
        -1 <= d < name@.len(),
{
    let n = name.len();
    let mut i: usize = n;
    while i > 0
        invariant
            0 <= i <= n,
            n == name@.len() <= u32::MAX,
            last_dot_from(name@, n - 1) == last_dot_from(name@, i - 1),
        decreases i,
    {
        if name[i - 1] == 46 {
            return (i - 1) as i64;
        }
        i = i - 1;
    }
    -1
}

/// The stem of a file name (the part before the last dot); an empty name
/// has none, which the host reports as an I/O-level failure.
pub fn get_file_name_without_extension(name: &Vec<u8>) -> (r: Result<Vec<u8>, BitCaskError>)
    requires
        name@.len() <= u32::MAX,
    ensures
        match r {
            Ok(s) => name@.len() > 0 && s@ == stem_of(name@),
            Err(e) => name@.len() == 0 && e == BitCaskError::IoError,
        },
{
    if name.len() == 0 {
        return Err(BitCaskError::IoError);
    }
    let d = find_last_dot(name);
    if d <= 0 {
        Ok(clone_bytes(name))
    } else {
        Ok(read_range(name, 0, d as usize))
    }
}

/// The index of the last slash at position `i` or before, or -1 if none.
pub open spec fn last_slash_from(s: Seq<u8>, i: int) -> int
    decreases i + 1,
{
    if i < 0 || i >= s.len() {
        -1
    } else if s[i] == 47 {
        i
    } else {
        last_slash_from(s, i - 1)
    }
}

/// The final component of a path: the bytes after its last slash.
pub open spec fn base_name_of(s: Seq<u8>) -> Seq<u8> {
    s.subrange(last_slash_from(s, s.len() - 1) + 1, s.len() as int)
}

/// The final path component: the bytes after the last slash. A name that
/// ends with a slash, or is empty, has none.
pub fn get_file_name(name: &Vec<u8>) -> (r: Result<Vec<u8>, BitCaskError>)
    requires
        name@.len() <= u32::MAX,
    ensures
        match r {
            Ok(s) => {
                &&& name@.len() > 0
                &&& name@.last() != 47
                &&& s@ == base_name_of(name@)
            },
            Err(e) => {
                &&& e == BitCaskError::IoError
                &&& (name@.len() == 0 || name@.last() == 47)
            },
        },
{
    let n = name.len();
    if n == 0 {
        return Err(BitCaskError::IoError);
    }
    if name[n - 1] == 47 {
        return Err(BitCaskError::IoError);
    }
    let mut i: usize = n;
    while i > 0
        invariant
            0 <= i <= n,
            0 < n == name@.len(),
            name@[n - 1] != 47,
            last_slash_from(name@, n - 1) == last_slash_from(name@, i - 1),
        decreases i,
    {
        if name[i - 1] == 47 {
            let r = read_range(name, i, n);
            return Ok(r);
        }
        i = i - 1;
    }
    let r = clone_bytes(name);
    proof {
        assert(name@.subrange(0, n as int) =~= name@);
    }
    Ok(r)
}

/// The numeric id encoded in a file name's stem: the stem read as a
/// decimal u32. A stem that is empty, not all digits, or too large for
/// u32 is a parse failure; an empty name is an I/O-level failure.
pub fn get_file_id_from_path(name: &Vec<u8>) -> (r: Result<u32, BitCaskError>)
    requires
        name@.len() <= u32::MAX,
    ensures
        match r {
            Ok(v) => {
                &&& name@.len() > 0
                &&& stem_of(name@).len() > 0
                &&& all_digits(stem_of(name@))
                &&& digits_val(stem_of(name@)) == v
            },
            Err(e) => {
                if name@.len() == 0 {
                    e == BitCaskError::IoError
                } else {
                    e == BitCaskError::ParseError && (stem_of(name@).len() == 0 || !all_digits(
                        stem_of(name@),
                    ) || digits_val(stem_of(name@)) > u32::MAX)
                }
            },
        },
{
    let stem = match get_file_name_without_extension(name) {
        Ok(s) => s,
        Err(e) => {
            return Err(e);
        },
    };
    let m = stem.len();
    if m == 0 {
        return Err(BitCaskError::ParseError);
    }
    let mut acc: u32 = 0;
    let mut i: usize = 0;
    while i < m
        invariant
            0 <= i <= m,
            0 < m == stem@.len(),
            name@.len() > 0,
            stem@ == stem_of(name@),
            all_digits(stem@.subrange(0, i as int)),
            acc == digits_val(stem@.subrange(0, i as int)),
        decreases m - i,
    {
        let b = stem[i];
        if b < 48 || b > 57 {
            proof {
                assert(!all_digits(stem@));
            }
            return Err(BitCaskError::ParseError);
        }
        let d = (b - 48) as u32;
        proof {
            assert(stem@.subrange(0, i + 1).drop_last() =~= stem@.subrange(0, i as int));
            assert(all_digits(stem@.subrange(0, i + 1))) by {
                assert(forall|j: int|
                    0 <= j < i + 1 ==> stem@.subrange(0, i + 1)[j] == stem@[j]);
            }
        }
        if acc > 429496729 || (acc == 429496729 && d > 5) {
            proof {
                assert(stem@.subrange(0, i + 1).last() == stem@[i as int]);
                assert(digits_val(stem@.subrange(0, i + 1)) == acc * 10 + d);
                assert(stem@.subrange(0, stem@.len() as int) =~= stem@);
                if all_digits(stem@) {
                    lemma_digits_val_prefix(stem@, i + 1);
                    assert(digits_val(stem@) > u32::MAX);
                }
            }
            return Err(BitCaskError::ParseError);
        }
        acc = acc * 10 + d;
        i = i + 1;
    }
    proof {
        assert(stem@.subrange(0, m as int) =~= stem@);
    }
    Ok(acc)
}

/// Whether a file name denotes a segment: one or more decimal digits
/// followed by ".dat".
pub open spec fn spec_is_dat_name(s: Seq<u8>) -> bool {
    &&& s.len() >= 5
    &&& (forall|i: int| 0 <= i < s.len() - 4 ==> is_digit(#[trigger] s[i]))
    &&& s.subrange(s.len() - 4, s.len() as int) == dat_suffix()
}

/// Relies on regex::bytes::Regex::is_match with the anchored pattern
/// `^[0-9]+\.dat$`: true exactly when the name is one or more ASCII
/// digits followed by ".dat".
#[verifier::external_body]
fn dat_name_matches(name: &Vec<u8>) -> (r: bool)
    ensures
        r == spec_is_dat_name(name@),
{
    let re = regex::bytes::Regex::new(r"^[0-9]+\.dat$").unwrap();
    re.is_match(name.as_slice())
}

/// Non-strict byte-lexicographic sortedness of a list of names.
pub open spec fn names_sorted(s: Seq<Vec<u8>>) -> bool {
    forall|p: int, q: int|
        0 <= p < q < s.len() ==> (lex_lt(#[trigger] s[p]@, #[trigger] s[q]@) || s[p]@ == s[q]@)
}

/// Inserts a name at its sorted position, keeping the list sorted.
fn insert_sorted(r: &mut Vec<Vec<u8>>, item: Vec<u8>)
    requires
        names_sorted(old(r)@),
    ensures
        names_sorted(final(r)@),
        exists|p: int| 0 <= p <= old(r)@.len() && final(r)@ == old(r)@.insert(p, item),
{
    let mut pos: usize = 0;
    while pos < r.len() && key_cmp(&r[pos], &item) != 1
        invariant
            0 <= pos <= r@.len(),
            r@ == old(r)@,
            names_sorted(r@),
            forall|p: int| 0 <= p < pos ==> (lex_lt(#[trigger] r@[p]@, item@) || r@[p]@ == item@),
        decreases r@.len() - pos,
    {
        proof {
            crate::lex::lex_lt_trichotomy(r@[pos as int]@, item@);
        }
        pos = pos + 1;
    }
    let ghost rold = r@;
    let ghost posg = pos as int;
    r.insert(pos, item);
    proof {
        assert(r@ == rold.insert(posg, item));
        assert forall|p: int, q: int| 0 <= p < q < r@.len() implies (lex_lt(
            #[trigger] r@[p]@,
            #[trigger] r@[q]@,
        ) || r@[p]@ == r@[q]@) by {
            if q < posg {
                assert(r@[p] == rold[p] && r@[q] == rold[q]);
            } else if p > posg {
                assert(r@[p] == rold[p - 1] && r@[q] == rold[q - 1]);
            } else if p < posg && q == posg {
                assert(r@[p] == rold[p]);
            } else if p < posg && q > posg {
                assert(r@[p] == rold[p] && r@[q] == rold[q - 1]);
            } else if p == posg && q > posg {
                assert(r@[q] == rold[q - 1]);
                assert(posg < rold.len());
                assert(lex_lt(item@, rold[posg]@));
                if q - 1 > posg {
                    if lex_lt(rold[posg]@, rold[q - 1]@) {
                        crate::lex::lex_lt_transitive(item@, rold[posg]@, rold[q - 1]@);
                    }
                }
            }
        }
    }
}

/// The segment file names among a directory's entries, in byte-
/// lexicographic order; because stems are zero-padded to nine digits,
/// this order agrees with the numeric id order below a billion.
#[verifier::rlimit(100)]
pub fn get_dat_files(names: &Vec<Vec<u8>>) -> (r: Vec<Vec<u8>>)
    ensures
        forall|i: int, j: int|
            0 <= i < j < r@.len() ==> (lex_lt(#[trigger] r@[i]@, #[trigger] r@[j]@) || r@[i]@
                == r@[j]@),
        forall|i: int|
            0 <= i < r@.len() ==> spec_is_dat_name(#[trigger] r@[i]@) && exists|j: int|
                0 <= j < names@.len() && names@[j]@ == r@[i]@,
        forall|j: int|
            0 <= j < names@.len() && spec_is_dat_name(#[trigger] names@[j]@) ==> exists|i: int|
                0 <= i < r@.len() && r@[i]@ == names@[j]@,
{
    let mut r: Vec<Vec<u8>> = Vec::new();
    let mut j: usize = 0;
    while j < names.len()
        invariant
            0 <= j <= names@.len(),
            forall|p: int, q: int|
                0 <= p < q < r@.len() ==> (lex_lt(#[trigger] r@[p]@, #[trigger] r@[q]@) || r@[p]@
                    == r@[q]@),
            forall|p: int|
                0 <= p < r@.len() ==> spec_is_dat_name(#[trigger] r@[p]@) && exists|q: int|
                    0 <= q < j && names@[q]@ == r@[p]@,
            forall|q: int|
                0 <= q < j && spec_is_dat_name(#[trigger] names@[q]@) ==> exists|p: int|
                    0 <= p < r@.len() && r@[p]@ == names@[q]@,
        decreases names@.len() - j,
    {
        let name = &names[j];
        if dat_name_matches(name) {
            let item = clone_bytes(name);
            let ghost rold = r@;
            insert_sorted(&mut r, item);
            proof {
                let pos = choose|p: int| 0 <= p <= rold.len() && r@ == rold.insert(p, item);
                assert(r@[pos]@ == name@);
                assert forall|p: int| 0 <= p < r@.len() implies spec_is_dat_name(
                    #[trigger] r@[p]@,
                ) && exists|q: int| 0 <= q < j + 1 && names@[q]@ == r@[p]@ by {
                    if p < pos {
                        assert(r@[p] == rold[p]);
                    } else if p > pos {
                        assert(r@[p] == rold[p - 1]);
                    } else {
                        assert(names@[j as int]@ == r@[p]@);
                    }
                }
                assert forall|q: int|
                    0 <= q < j + 1 && spec_is_dat_name(#[trigger] names@[q]@) implies exists|p: int|
                    0 <= p < r@.len() && r@[p]@ == names@[q]@ by {
                    if q < j {
                        let p0 = choose|p0: int| 0 <= p0 < rold.len() && rold[p0]@ == names@[q]@;
                        if p0 < pos {
                            assert(r@[p0]@ == names@[q]@);
                        } else {
                            assert(r@[p0 + 1]@ == names@[q]@);
                        }
                    } else {
                        assert(r@[pos]@ == names@[q]@);
                    }
                }
            }
        }
        j = j + 1;
    }
    r
}

/// The id the next created segment will get: one past the greatest id in
/// the directory, or zero when no segment exists yet. The caller hands the
/// segment names in sorted order, so the greatest id is the last name's.
pub fn get_next_id(dat_files: &Vec<Vec<u8>>) -> (r: u32)
    requires
        dat_files@.len() > 0 ==> {
            &&& dat_files@.last()@.len() <= u32::MAX
            &&& spec_is_dat_name(dat_files@.last()@)
            &&& digits_val(stem_of(dat_files@.last()@)) < u32::MAX
        },
    ensures
        r == if dat_files@.len() == 0 {
            0
        } else {
            digits_val(stem_of(dat_files@.last()@)) + 1
        },
{
    if dat_files.len() == 0 {
        return 0;
    }
    let last = &dat_files[dat_files.len() - 1];
    proof {
        lemma_dat_name_stem(last@);
        lemma_digits_val_nonneg(stem_of(last@));
    }
    let id = match get_file_id_from_path(last) {
        Ok(v) => v,
        Err(_) => 0,
    };
    id + 1
}

/// A segment name's stem is its digit run: nonempty and all digits.
pub proof fn lemma_dat_name_stem(s: Seq<u8>)
    requires
        spec_is_dat_name(s),
    ensures
        stem_of(s) == s.subrange(0, s.len() - 4),
        stem_of(s).len() > 0,
        all_digits(stem_of(s)),
{
    let n = s.len() as int;
    assert(s[n - 4] == 46);
    assert(s[n - 3] == 100 && s[n - 2] == 97 && s[n - 1] == 116) by {
        assert(s.subrange(n - 4, n)[1] == s[n - 3]);
        assert(s.subrange(n - 4, n)[2] == s[n - 2]);
        assert(s.subrange(n - 4, n)[3] == s[n - 1]);
    }
    assert(s[n - 1] != 46 && s[n - 2] != 46 && s[n - 3] != 46);
    assert(last_dot_from(s, n - 4) == n - 4);
    assert(last_dot_from(s, n - 3) == n - 4);
    assert(last_dot_from(s, n - 2) == n - 4);
    assert(last_dot_from(s, n - 1) == n - 4);
    assert forall|i: int| 0 <= i < n - 4 implies is_digit(#[trigger] s.subrange(0, n - 4)[i]) by {
        assert(s.subrange(0, n - 4)[i] == s[i]);
        assert(is_digit(s[i]));
    }
}

/// The name of the hint file that pairs with a segment file name: the
/// same stem with the extension replaced by ".idx" (or added, when the
/// name has no extension).
pub fn get_hint_from_dat_path(dat_file_path: &Vec<u8>) -> (r: Vec<u8>)
    requires
        dat_file_path@.len() <= u32::MAX,
    ensures
        r@ == stem_of(dat_file_path@) + idx_suffix(),
{
    let d = find_last_dot(dat_file_path);
    let mut out = if d <= 0 {
        clone_bytes(dat_file_path)
    } else {
        read_range(dat_file_path, 0, d as usize)
    };
    out.push(46);
    out.push(105);
    out.push(100);
    out.push(120);
    proof {
        assert(out@ =~= stem_of(dat_file_path@) + idx_suffix());
    }
    out
}

} // verus!
