//! The values of the archive's XML metadata: the sample rate, the block length,
//! the Rice codes and the thresholds, each given as the text of one element.
use vstd::prelude::*;
use crate::error::X3Error;
use crate::x3::{Parameters, DEFAULT_BLOCKS_PER_FRAME};

verus! {

pub open spec fn is_digit(c: u8) -> bool {
    48 <= c <= 57
}

/// The value of a string of decimal digits.
pub open spec fn decimal_value(s: Seq<u8>) -> nat
    decreases s.len(),
{
    if s.len() == 0 {
        0
    } else {
        decimal_value(s.drop_last()) * 10 + (s.last() - 48) as nat
    }
}

/// The value of `s` when it is a non-empty run of decimal digits that fits in 32 bits.
pub open spec fn decimal_u32(s: Seq<u8>) -> Option<u32> {
    if s.len() > 0 && (forall|i: int| 0 <= i < s.len() ==> is_digit(#[trigger] s[i]))
        && decimal_value(s) <= u32::MAX {
        Some(decimal_value(s) as u32)
    } else {
        None
    }
}

proof fn lemma_decimal_prefix(s: Seq<u8>, i: int)
    requires
        0 <= i <= s.len(),
    ensures
        decimal_value(s.subrange(0, i)) <= decimal_value(s),
    decreases s.len() - i,
{
    if i < s.len() {
        lemma_decimal_prefix(s, i + 1);
        assert(s.subrange(0, i + 1).drop_last() =~= s.subrange(0, i));
    } else {
        assert(s.subrange(0, i) =~= s);
    }
}

/// Parses a decimal number of at most 32 bits.
pub fn parse_u32(s: &[u8]) -> (r: Option<u32>)
    ensures
        r == decimal_u32(s@),
{
    if s.len() == 0 {
        return None;
    }
    let mut v: u64 = 0;
    let mut i: usize = 0;
    while i < s.len()
        invariant
            i <= s@.len(),
            s@.len() > 0,
            forall|j: int| 0 <= j < i ==> is_digit(#[trigger] s@[j]),
            v as nat == decimal_value(s@.subrange(0, i as int)),
            v <= u32::MAX,
        decreases s.len() - i,
    {
        let c: u8 = s[i];
        if c < 48 || c > 57 {
            assert(!is_digit(s@[i as int]));
            return None;
        }
        assert(s@.subrange(0, i + 1).drop_last() =~= s@.subrange(0, i as int));
        v = v * 10 + (c - 48) as u64;
        if v > 0xffff_ffff {
            proof {
                lemma_decimal_prefix(s@, i + 1);
            }
            return None;
        }
        i = i + 1;
    }
    assert(s@.subrange(0, s@.len() as int) =~= s@);
    Some(v as u32)
}

/// The value of `s` when it is a non-empty run of decimal digits that fits in a `usize`.
pub open spec fn decimal_usize(s: Seq<u8>) -> Option<usize> {
    if s.len() > 0 && (forall|i: int| 0 <= i < s.len() ==> is_digit(#[trigger] s[i]))
        && decimal_value(s) <= usize::MAX {
        Some(decimal_value(s) as usize)
    } else {
        None
    }
}

/// Parses a decimal number that fits in a `usize`.
pub fn parse_usize(s: &[u8]) -> (r: Option<usize>)
    ensures
        r == decimal_usize(s@),
{
    if s.len() == 0 {
        return None;
    }
    let mut v: usize = 0;
    let mut i: usize = 0;
    while i < s.len()
        invariant
            i <= s@.len(),
            s@.len() > 0,
            forall|j: int| 0 <= j < i ==> is_digit(#[trigger] s@[j]),
            v as nat == decimal_value(s@.subrange(0, i as int)),
        decreases s.len() - i,
    {
        let c: u8 = s[i];
        if c < 48 || c > 57 {
            assert(!is_digit(s@[i as int]));
            return None;
        }
        assert(s@.subrange(0, i + 1).drop_last() =~= s@.subrange(0, i as int));
        let d: usize = (c - 48) as usize;
        if v > (usize::MAX - d) / 10 {
            proof {
                assert(v * 10 + d > usize::MAX) by (nonlinear_arith)
                    requires
                        v > (usize::MAX - d) / 10,
                        d <= 9,
                ;
                lemma_decimal_prefix(s@, i + 1);
            }
            return None;
        }
        proof {
            assert(v * 10 + d <= usize::MAX) by (nonlinear_arith)
                requires
                    v <= (usize::MAX - d) / 10,
                    d <= 9,
            ;
        }
        v = v * 10 + d;
        i = i + 1;
    }
    assert(s@.subrange(0, s@.len() as int) =~= s@);
    Some(v)
}

/// The comma-separated pieces of `s`, empty ones included.
pub open spec fn split_commas(s: Seq<u8>) -> Seq<Seq<u8>>
    decreases s.len(),
{
    if s.len() == 0 {
        seq![Seq::empty()]
    } else {
        let init = split_commas(s.drop_last());
        if s.last() == 0x2cu8 {
            init.push(Seq::empty())
        } else {
            init.update(init.len() - 1, init.last().push(s.last()))
        }
    }
}

proof fn lemma_split_nonempty(s: Seq<u8>)
    ensures
        split_commas(s).len() >= 1,
    decreases s.len(),
{
    if s.len() > 0 {
        lemma_split_nonempty(s.drop_last());
    }
}

/// The contents of a vector of byte vectors.
pub open spec fn views(v: Seq<Vec<u8>>) -> Seq<Seq<u8>> {
    v.map_values(|x: Vec<u8>| x@)
}

/// Splits `s` at every comma.
pub fn split_at_commas(s: &[u8]) -> (r: Vec<Vec<u8>>)
    ensures
        views(r@) == split_commas(s@),
{
    let mut tokens: Vec<Vec<u8>> = Vec::new();
    let mut cur: Vec<u8> = Vec::new();
    let mut i: usize = 0;
    assert(views(tokens@).push(cur@) =~= split_commas(s@.subrange(0, 0)));
    while i < s.len()
        invariant
            i <= s@.len(),
            views(tokens@).push(cur@) == split_commas(s@.subrange(0, i as int)),
        decreases s.len() - i,
    {
        let c: u8 = s[i];
        let ghost prev = s@.subrange(0, i as int);
        assert(s@.subrange(0, i + 1).drop_last() =~= prev);
        proof {
            lemma_split_nonempty(prev);
        }
        if c == 0x2cu8 {
            let done = cur;
            cur = Vec::new();
            assert(views(tokens@.push(done)) =~= views(tokens@).push(done@));
            tokens.push(done);
            assert(views(tokens@).push(cur@) =~= split_commas(s@.subrange(0, i + 1)));
        } else {
            let ghost old_cur = cur@;
            cur.push(c);
            assert(views(tokens@).push(cur@) =~= views(tokens@).push(old_cur).update(
                tokens@.len() as int,
                old_cur.push(c),
            ));
        }
        i = i + 1;
    }
    assert(s@.subrange(0, s@.len() as int) =~= s@);
    assert(views(tokens@.push(cur)) =~= views(tokens@).push(cur@));
    tokens.push(cur);
    tokens
}

/// What a token of `<CODES>` names: `Some(Some(k))` for `RICEk` with `k` from 0 to 3,
/// `Some(None)` for `BFP`, `None` for anything else.
pub open spec fn code_token(t: Seq<u8>) -> Option<Option<usize>> {
    if t.len() == 5 && t[0] == 0x52u8 && t[1] == 0x49u8 && t[2] == 0x43u8 && t[3] == 0x45u8
        && 0x30u8 <= t[4] <= 0x33u8 {
        Some(Some((t[4] - 0x30) as usize))
    } else if t.len() == 3 && t[0] == 0x42u8 && t[1] == 0x46u8 && t[2] == 0x50u8 {
        Some(None)
    } else {
        None
    }
}

/// The Rice codes named by `toks`, in order, `BFP` left out; `None` when a token is unknown.
pub open spec fn rice_ids(toks: Seq<Seq<u8>>) -> Option<Seq<usize>>
    decreases toks.len(),
{
    if toks.len() == 0 {
        Some(Seq::empty())
    } else {
        match rice_ids(toks.drop_last()) {
            None => None,
            Some(ids) => match code_token(toks.last()) {
                None => None,
                Some(None) => Some(ids),
                Some(Some(k)) => Some(ids.push(k)),
            },
        }
    }
}

/// The decimal numbers of `toks`; `None` when one is not a number.
pub open spec fn numbers(toks: Seq<Seq<u8>>) -> Option<Seq<usize>>
    decreases toks.len(),
{
    if toks.len() == 0 {
        Some(Seq::empty())
    } else {
        match numbers(toks.drop_last()) {
            None => None,
            Some(ns) => match decimal_usize(toks.last()) {
                None => None,
                Some(n) => Some(ns.push(n)),
            },
        }
    }
}

proof fn lemma_rice_ids_none(toks: Seq<Seq<u8>>, i: int)
    requires
        0 <= i <= toks.len(),
        rice_ids(toks.subrange(0, i)) is None,
    ensures
        rice_ids(toks) is None,
    decreases toks.len() - i,
{
    if i < toks.len() {
        assert(toks.subrange(0, i + 1).drop_last() =~= toks.subrange(0, i));
        lemma_rice_ids_none(toks, i + 1);
    } else {
        assert(toks.subrange(0, i) =~= toks);
    }
}

proof fn lemma_numbers_none(toks: Seq<Seq<u8>>, i: int)
    requires
        0 <= i <= toks.len(),
        numbers(toks.subrange(0, i)) is None,
    ensures
        numbers(toks) is None,
    decreases toks.len() - i,
{
    if i < toks.len() {
        assert(toks.subrange(0, i + 1).drop_last() =~= toks.subrange(0, i));
        lemma_numbers_none(toks, i + 1);
    } else {
        assert(toks.subrange(0, i) =~= toks);
    }
}

/// Reads the Rice codes of a `<CODES>` text.
pub fn parse_codes(s: &[u8]) -> (r: Option<Vec<usize>>)
    ensures
        match rice_ids(split_commas(s@)) {
            Some(ids) => r is Some && r->Some_0@ == ids,
            None => r is None,
        },
{
    let toks = split_at_commas(s);
    let ghost ts = split_commas(s@);
    let mut ids: Vec<usize> = Vec::new();
    let mut i: usize = 0;
    assert(ts.subrange(0, 0) =~= Seq::<Seq<u8>>::empty());
    while i < toks.len()
        invariant
            ts == split_commas(s@),
            views(toks@) == ts,
            i <= toks@.len(),
            rice_ids(ts.subrange(0, i as int)) == Some(ids@),
        decreases toks.len() - i,
    {
        let t: &Vec<u8> = &toks[i];
        assert(ts.subrange(0, i + 1).drop_last() =~= ts.subrange(0, i as int));
        assert(ts.subrange(0, i + 1).last() == t@);
        if t.len() == 5 && t[0] == 0x52u8 && t[1] == 0x49u8 && t[2] == 0x43u8 && t[3] == 0x45u8
            && 0x30u8 <= t[4] && t[4] <= 0x33u8 {
            ids.push((t[4] - 0x30u8) as usize);
        } else if t.len() == 3 && t[0] == 0x42u8 && t[1] == 0x46u8 && t[2] == 0x50u8 {
        } else {
            proof {
                assert(code_token(t@) is None);
                assert(rice_ids(ts.subrange(0, i + 1)) is None);
                lemma_rice_ids_none(ts, i + 1);
            }
            return None;
        }
        i = i + 1;
    }
    assert(ts.subrange(0, toks@.len() as int) =~= ts);
    Some(ids)
}

/// Reads the comma-separated decimal numbers of a `<T>` text.
pub fn parse_numbers(s: &[u8]) -> (r: Option<Vec<usize>>)
    ensures
        match numbers(split_commas(s@)) {
            Some(ns) => r is Some && r->Some_0@ == ns,
            None => r is None,
        },
{
    let toks = split_at_commas(s);
    let ghost ts = split_commas(s@);
    let mut ns: Vec<usize> = Vec::new();
    let mut i: usize = 0;
    assert(ts.subrange(0, 0) =~= Seq::<Seq<u8>>::empty());
    while i < toks.len()
        invariant
            ts == split_commas(s@),
            views(toks@) == ts,
            i <= toks@.len(),
            numbers(ts.subrange(0, i as int)) == Some(ns@),
        decreases toks.len() - i,
    {
        assert(ts.subrange(0, i + 1).drop_last() =~= ts.subrange(0, i as int));
        assert(ts.subrange(0, i + 1).last() == toks@[i as int]@);
        match parse_usize(toks[i].as_slice()) {
            Some(n) => ns.push(n),
            None => {
                proof {
                    assert(decimal_usize(toks@[i as int]@) is None);
                    assert(numbers(ts.subrange(0, i + 1)) is None);
                    lemma_numbers_none(ts, i + 1);
                }
                return None;
            },
        }
        i = i + 1;
    }
    assert(ts.subrange(0, toks@.len() as int) =~= ts);
    Some(ns)
}

/// Whether the four element texts describe a usable archive: a positive sample rate
/// and block length, at least three Rice codes, and exactly three strictly increasing
/// thresholds.
pub open spec fn texts_valid(fs: Seq<u8>, blklen: Seq<u8>, codes: Seq<u8>, t: Seq<u8>) -> bool {
    &&& decimal_u32(fs) is Some && decimal_u32(fs)->Some_0 > 0
    &&& decimal_u32(blklen) is Some && decimal_u32(blklen)->Some_0 > 0
    &&& rice_ids(split_commas(codes)) is Some
    &&& rice_ids(split_commas(codes))->Some_0.len() >= 3
    &&& numbers(split_commas(t)) is Some
    &&& numbers(split_commas(t))->Some_0.len() == 3
    &&& ({
        let th = numbers(split_commas(t))->Some_0;
        th[0] < th[1] < th[2]
    })
}

/// The sample rate and parameters that the texts of `<FS>`, `<BLKLEN>`, `<CODES>` and
/// `<T>` give: the first three Rice codes, the three thresholds, the default frame
/// length. A sample rate or block length that is not a number gives
/// `ArchiveHeaderInvalid`, then an unknown code token `ArchiveHeaderRiceCode`, then
/// any other fault `ArchiveHeaderInvalid`.
pub open spec fn params_of_texts(fs: Seq<u8>, blklen: Seq<u8>, codes: Seq<u8>, t: Seq<u8>) -> Result<(u32, Parameters), X3Error> {
    if decimal_u32(fs) is None || decimal_u32(blklen) is None {
        Err(X3Error::ArchiveHeaderInvalid)
    } else if rice_ids(split_commas(codes)) is None {
        Err(X3Error::ArchiveHeaderRiceCode)
    } else if !texts_valid(fs, blklen, codes, t) {
        Err(X3Error::ArchiveHeaderInvalid)
    } else {
        let ids = rice_ids(split_commas(codes))->Some_0;
        let th = numbers(split_commas(t))->Some_0;
        Ok(
            (
                decimal_u32(fs)->Some_0,
                Parameters {
                    block_len: decimal_u32(blklen)->Some_0 as usize,
                    blocks_per_frame: DEFAULT_BLOCKS_PER_FRAME,
                    rice_codes: [ids[0], ids[1], ids[2]],
                    thresholds: [th[0], th[1], th[2]],
                },
            ),
        )
    }
}

/// The sample rate and codec parameters from the texts of `<FS>`, `<BLKLEN>`,
/// `<CODES>` and `<T>`.
pub fn params_from_texts(fs: &[u8], blklen: &[u8], codes: &[u8], t: &[u8]) -> (r: Result<(u32, Parameters), X3Error>)
    ensures
        r == params_of_texts(fs@, blklen@, codes@, t@),
        r is Ok ==> r->Ok_0.1.wf() && r->Ok_0.0 > 0,
{
    let sample_rate = match parse_u32(fs) {
        Some(v) => v,
        None => return Err(X3Error::ArchiveHeaderInvalid),
    };
    let block_len = match parse_u32(blklen) {
        Some(v) => v,
        None => return Err(X3Error::ArchiveHeaderInvalid),
    };
    let ids = match parse_codes(codes) {
        Some(ids) => ids,
        None => return Err(X3Error::ArchiveHeaderRiceCode),
    };
    let th = match parse_numbers(t) {
        Some(v) => v,
        None => return Err(X3Error::ArchiveHeaderInvalid),
    };
    if sample_rate == 0 || block_len == 0 || ids.len() < 3 || th.len() != 3 {
        return Err(X3Error::ArchiveHeaderInvalid);
    }
    if !(th[0] < th[1] && th[1] < th[2]) {
        return Err(X3Error::ArchiveHeaderInvalid);
    }
    let rice_codes: [usize; 3] = [ids[0], ids[1], ids[2]];
    let thresholds: [usize; 3] = [th[0], th[1], th[2]];
    proof {
        lemma_rice_ids_bound(split_commas(codes@));
    }
    match Parameters::new(block_len as usize, DEFAULT_BLOCKS_PER_FRAME, rice_codes, thresholds) {
        Ok(p) => Ok((sample_rate, p)),
        Err(e) => Err(e),
    }
}

proof fn lemma_rice_ids_bound(toks: Seq<Seq<u8>>)
    ensures
        rice_ids(toks) is Some ==> forall|i: int|
            0 <= i < rice_ids(toks)->Some_0.len() ==> rice_ids(toks)->Some_0[i] <= 3,
    decreases toks.len(),
{
    if toks.len() > 0 {
        lemma_rice_ids_bound(toks.drop_last());
    }
}

} // verus!
