//! Preference weights: a value paired with an integer quality in
//! thousandths, its wire grammar (`;q=` followed by a decimal in [0, 1]),
//! and its formatting with the fewest decimal digits needed. Weights are
//! integers, never floating point, so equality and ordering are
//! deterministic.

use vstd::prelude::*;

use crate::wire::{is_digit, trim_bytes, trim_ows, BACKSLASH, DQUOTE, SEMI};
use crate::HeaderError;

verus! {

/// A quality weight in thousandths: 0 is "not acceptable", 1000 is the
/// default full preference, written `q=1`.
#[derive(Debug, Clone, Copy, PartialEq, Eq, PartialOrd, Ord, Structural)]
pub struct Quality(pub u16);

/// A quality in range.
pub open spec fn quality_wf(q: Quality) -> bool {
    q.0 <= 1000
}

/// Makes a quality from thousandths; values above 1000 are not weights.
pub fn q(value: u16) -> (r: Quality)
    requires
        value <= 1000,
    ensures
        r.0 == value,
{
    Quality(value)
}

/// A value paired with its quality weight.
#[derive(Debug, Clone, Copy, PartialEq, Eq)]
pub struct QualityItem<T> {
    /// The value being weighted.
    pub item: T,
    /// Its preference weight.
    pub quality: Quality,
}

impl<T: View> View for QualityItem<T> {
    type V = (T::V, int);

    open spec fn view(&self) -> (T::V, int) {
        (self.item@, self.quality.0 as int)
    }
}

impl<T: DeepView> DeepView for QualityItem<T> {
    type V = (T::V, int);

    open spec fn deep_view(&self) -> (T::V, int) {
        (self.item.deep_view(), self.quality.0 as int)
    }
}

impl<T> QualityItem<T> {
    /// Pairs a value with a weight.
    pub fn new(item: T, quality: Quality) -> (r: QualityItem<T>)
        ensures
            r.item == item,
            r.quality == quality,
    {
        QualityItem { item, quality }
    }
}

/// Pairs a value with the default full weight.
pub fn qitem<T>(item: T) -> (r: QualityItem<T>)
    ensures
        r.item == item,
        r.quality.0 == 1000,
{
    QualityItem { item, quality: Quality(1000) }
}

/// The position of the first semicolon outside any quoted string, from
/// `i` on with the quoted-string state given, or -1.
pub open spec fn find_semi(s: Seq<u8>, i: int, inq: bool, esc: bool) -> int
    decreases s.len() - i,
{
    if i < 0 || i >= s.len() {
        -1
    } else {
        let b = s[i];
        if inq {
            if esc {
                find_semi(s, i + 1, true, false)
            } else if b == BACKSLASH {
                find_semi(s, i + 1, true, true)
            } else if b == DQUOTE {
                find_semi(s, i + 1, false, false)
            } else {
                find_semi(s, i + 1, true, false)
            }
        } else {
            if b == SEMI {
                i
            } else if b == DQUOTE {
                find_semi(s, i + 1, true, false)
            } else {
                find_semi(s, i + 1, false, false)
            }
        }
    }
}

/// The weight denoted by the digits after `q=`: `0`, optionally followed
/// by a point and up to three decimals, or `1`, optionally followed by a
/// point and up to three zeros. Anything else is not a qvalue.
pub open spec fn qvalue_weight(p: Seq<u8>) -> Option<int> {
    if p.len() == 0 {
        None
    } else if p[0] == 48 {
        if p.len() == 1 {
            Some(0)
        } else if p[1] == 46 && p.len() <= 5 && (forall|i: int|
            2 <= i < p.len() ==> is_digit(p[i])) {
            Some(
                (if p.len() > 2 {
                    (p[2] - 48) * 100
                } else {
                    0
                }) + (if p.len() > 3 {
                    (p[3] - 48) * 10
                } else {
                    0
                }) + (if p.len() > 4 {
                    p[4] - 48
                } else {
                    0
                }),
            )
        } else {
            None
        }
    } else if p[0] == 49 {
        if p.len() == 1 {
            Some(1000)
        } else if p[1] == 46 && p.len() <= 5 && (forall|i: int| 2 <= i < p.len() ==> p[i] == 48) {
            Some(1000)
        } else {
            None
        }
    } else {
        None
    }
}

/// What a list element with an optional quality parameter denotes: the
/// value bytes before the first unquoted semicolon, trimmed, and the
/// weight. No semicolon means the default weight 1000; after one, only a
/// well-formed `q=`/`Q=` parameter is accepted.
pub open spec fn spec_parse_qelem(s: Seq<u8>) -> Option<(Seq<u8>, int)> {
    let j = find_semi(s, 0, false, false);
    if j == -1 {
        Some((trim_ows(s), 1000))
    } else {
        let val = trim_ows(s.subrange(0, j));
        let param = trim_ows(s.subrange(j + 1, s.len() as int));
        if param.len() >= 2 && (param[0] == 113 || param[0] == 81) && param[1] == 61 {
            match qvalue_weight(param.subrange(2, param.len() as int)) {
                Some(w) => Some((val, w)),
                None => None,
            }
        } else {
            None
        }
    }
}

/// The wire suffix of a weight: nothing at the default 1000 (or above
/// the range, where the default is emitted), else `;q=` and the weight in
/// thousandths with the fewest decimals needed.
pub open spec fn spec_fmt_quality(w: int) -> Seq<u8> {
    if w >= 1000 {
        Seq::empty()
    } else {
        seq![SEMI, 113u8, 61u8] + qvalue_repr(w)
    }
}

/// The shortest decimal form of a weight below 1000.
pub open spec fn qvalue_repr(w: int) -> Seq<u8> {
    if w == 0 {
        seq![48u8]
    } else if w % 100 == 0 {
        seq![48u8, 46u8, (48 + w / 100) as u8]
    } else if w % 10 == 0 {
        seq![48u8, 46u8, (48 + w / 100) as u8, (48 + (w / 10) % 10) as u8]
    } else {
        seq![48u8, 46u8, (48 + w / 100) as u8, (48 + (w / 10) % 10) as u8, (48 + w % 10) as u8]
    }
}

/// Parsing the formatted form of a weight gives back exactly that weight:
/// the short decimal form is a well-formed qvalue denoting its weight.
pub proof fn lemma_quality_repr_round_trip(w: int)
    requires
        0 <= w < 1000,
    ensures
        qvalue_weight(qvalue_repr(w)) == Some(w),
{
    let p = qvalue_repr(w);
    if w == 0 {
    } else if w % 100 == 0 {
        assert(w / 100 * 100 == w) by (nonlinear_arith)
            requires
                0 < w < 1000 && w % 100 == 0,
        ;
        assert(1 <= w / 100 <= 9);
        assert(is_digit(p[2]));
        assert(qvalue_weight(p) == Some((p[2] - 48) * 100));
    } else if w % 10 == 0 {
        assert(w / 100 * 100 + (w / 10) % 10 * 10 == w) by (nonlinear_arith)
            requires
                0 < w < 1000 && w % 10 == 0 && w % 100 != 0,
        ;
        assert(0 <= w / 100 <= 9);
        assert(0 <= (w / 10) % 10 <= 9);
        assert(is_digit(p[2]) && is_digit(p[3]));
        assert(qvalue_weight(p) == Some((p[2] - 48) * 100 + (p[3] - 48) * 10));
    } else {
        assert(w / 100 * 100 + (w / 10) % 10 * 10 + w % 10 == w) by (nonlinear_arith)
            requires
                0 < w < 1000,
        ;
        assert(0 <= w / 100 <= 9);
        assert(0 <= (w / 10) % 10 <= 9);
        assert(0 <= w % 10 <= 9);
        assert(is_digit(p[2]) && is_digit(p[3]) && is_digit(p[4]));
        assert(qvalue_weight(p) == Some((p[2] - 48) * 100 + (p[3] - 48) * 10 + (p[4] - 48)));
    }
}

/// Whether every byte from position `from` on is an ASCII zero.
fn zeros_from(s: &[u8], from: usize) -> (r: bool)
    requires
        from <= s@.len(),
    ensures
        r == (forall|m: int| from <= m < s@.len() ==> s@[m] == 48),
{
    let n = s.len();
    let mut k = from;
    while k < n
        invariant
            from <= k <= n,
            n == s@.len(),
            forall|m: int| from <= m < k ==> s@[m] == 48,
        decreases n - k,
    {
        if s[k] != 48 {
            return false;
        }
        k += 1;
    }
    true
}

/// Finds the first semicolon outside any quoted string.
fn find_semi_exec(s: &[u8]) -> (r: Option<usize>)
    ensures
        match r {
            Some(j) => find_semi(s@, 0, false, false) == j as int && (j as int) < s@.len(),
            None => find_semi(s@, 0, false, false) == -1,
        },
{
    let n = s.len();
    let mut i: usize = 0;
    let mut inq: bool = false;
    let mut esc: bool = false;
    while i < n
        invariant
            i <= n,
            n == s@.len(),
            !inq ==> !esc,
            find_semi(s@, 0, false, false) == find_semi(s@, i as int, inq, esc),
        decreases n - i,
    {
        let b = s[i];
        if inq {
            if esc {
                esc = false;
            } else if b == BACKSLASH {
                esc = true;
            } else if b == DQUOTE {
                inq = false;
            }
        } else {
            if b == SEMI {
                return Some(i);
            } else if b == DQUOTE {
                inq = true;
            }
        }
        i += 1;
    }
    None
}

/// Splits one list element into its value bytes and its weight, per the
/// quality grammar. Fails exactly on a malformed or out-of-range quality
/// parameter.
pub fn parse_quality_elem(s: &[u8]) -> (r: Result<(Vec<u8>, Quality), HeaderError>)
    ensures
        match r {
            Ok((v, qq)) => spec_parse_qelem(s@) == Some((v@, qq.0 as int)) && qq.0 <= 1000,
            Err(_) => spec_parse_qelem(s@) is None,
        },
{
    let n = s.len();
    match find_semi_exec(s) {
        None => {
            proof {
                assert(find_semi(s@, 0, false, false) == -1);
            }
            Ok((trim_bytes(s), Quality(1000)))
        }
        Some(j) => {
            proof {
                assert(find_semi(s@, 0, false, false) == j as int);
            }
            let val = trim_bytes(vstd::slice::slice_subrange(s, 0, j));
            let param = trim_bytes(vstd::slice::slice_subrange(s, j + 1, n));
            if param.len() < 2 || (param[0] != 113 && param[0] != 81) || param[1] != 61 {
                return Err(HeaderError::Grammar);
            }
            let digits = vstd::slice::slice_subrange(param.as_slice(), 2, param.len());
            let ghost p = param@.subrange(2, param@.len() as int);
            let pl = digits.len();
            if pl == 0 {
                return Err(HeaderError::Grammar);
            }
            if digits[0] == 48 {
                if pl == 1 {
                    return Ok((val, Quality(0)));
                }
                if digits[1] != 46 || pl > 5 {
                    return Err(HeaderError::Grammar);
                }
                let mut w: u16 = 0;
                if pl > 2 {
                    let d = digits[2];
                    if d < 48 || d > 57 {
                        return Err(HeaderError::Grammar);
                    }
                    w += (d - 48) as u16 * 100;
                }
                if pl > 3 {
                    let d = digits[3];
                    if d < 48 || d > 57 {
                        return Err(HeaderError::Grammar);
                    }
                    w += (d - 48) as u16 * 10;
                }
                if pl > 4 {
                    let d = digits[4];
                    if d < 48 || d > 57 {
                        return Err(HeaderError::Grammar);
                    }
                    w += (d - 48) as u16;
                }
                Ok((val, Quality(w)))
            } else if digits[0] == 49 {
                if pl == 1 {
                    return Ok((val, Quality(1000)));
                }
                if digits[1] != 46 || pl > 5 {
                    return Err(HeaderError::Grammar);
                }
                if zeros_from(digits, 2) {
                    Ok((val, Quality(1000)))
                } else {
                    Err(HeaderError::Grammar)
                }
            } else {
                Err(HeaderError::Grammar)
            }
        }
    }
}

/// Formats the wire suffix of a weight: empty at the default.
pub fn fmt_quality_suffix(qq: &Quality) -> (r: Vec<u8>)
    ensures
        r@ == spec_fmt_quality(qq.0 as int),
{
    let w = qq.0;
    if w >= 1000 {
        let r: Vec<u8> = Vec::new();
        proof {
            assert(r@ =~= spec_fmt_quality(qq.0 as int));
        }
        return r;
    }
    let mut r: Vec<u8> = vec![SEMI, 113, 61];
    if w == 0 {
        r.push(48);
        proof {
            assert(r@ =~= spec_fmt_quality(qq.0 as int));
        }
    } else if w % 100 == 0 {
        r.push(48);
        r.push(46);
        r.push(48 + (w / 100) as u8);
        proof {
            assert(r@ =~= spec_fmt_quality(qq.0 as int));
        }
    } else if w % 10 == 0 {
        r.push(48);
        r.push(46);
        r.push(48 + (w / 100) as u8);
        r.push(48 + ((w / 10) % 10) as u8);
        proof {
            assert(r@ =~= spec_fmt_quality(qq.0 as int));
        }
    } else {
        r.push(48);
        r.push(46);
        r.push(48 + (w / 100) as u8);
        r.push(48 + ((w / 10) % 10) as u8);
        r.push(48 + (w % 10) as u8);
        proof {
            assert(r@ =~= spec_fmt_quality(qq.0 as int));
        }
    }
    r
}

} // verus!
