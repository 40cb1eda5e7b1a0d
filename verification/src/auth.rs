//! Caller authentication: parsing the peer id a request carries and
//! checking it against the configured peer set. Requests from unknown
//! peers are rejected without touching any state.

use vstd::prelude::*;

use crate::config::Peer;

verus! {

/// An ASCII decimal digit.
pub open spec fn is_digit(b: u8) -> bool {
    48 <= b <= 57
}

/// The number the digit string denotes, most significant first.
pub open spec fn decimal_value(s: Seq<u8>) -> int
    decreases s.len(),
{
    if s.len() == 0 {
        0
    } else {
        decimal_value(s.drop_last()) * 10 + (s.last() - 48)
    }
}

/// A valid unsigned decimal: an optional leading plus sign, then at least
/// one digit.
pub open spec fn decimal_digits(s: Seq<u8>) -> Seq<u8> {
    if s.len() > 0 && s[0] == 43 {
        s.subrange(1, s.len() as int)
    } else {
        s
    }
}

pub open spec fn is_decimal(s: Seq<u8>) -> bool {
    &&& decimal_digits(s).len() >= 1
    &&& forall|i: int| 0 <= i < decimal_digits(s).len() ==> is_digit(#[trigger] decimal_digits(s)[i])
}

/// The denoted value never shrinks as digits are appended.
proof fn lemma_decimal_prefix_le(s: Seq<u8>, j: int)
    requires
        0 <= j <= s.len(),
        forall|i: int| 0 <= i < s.len() ==> is_digit(#[trigger] s[i]),
    ensures
        decimal_value(s.take(j)) <= decimal_value(s),
        decimal_value(s) >= 0,
    decreases s.len() - j,
{
    if j == s.len() {
        assert(s.take(j) =~= s);
        lemma_decimal_nonneg(s);
    } else {
        lemma_decimal_prefix_le(s, j + 1);
        assert(s.take(j + 1).drop_last() =~= s.take(j));
        assert(s.take(j + 1).last() == s[j]);
        lemma_decimal_nonneg(s.take(j));
        assert(decimal_value(s.take(j + 1)) == decimal_value(s.take(j)) * 10 + (s[j] - 48));
        assert(decimal_value(s.take(j)) * 10 >= decimal_value(s.take(j))) by (nonlinear_arith)
            requires
                decimal_value(s.take(j)) >= 0,
        ;
    }
}

/// A digit string denotes a nonnegative number.
proof fn lemma_decimal_nonneg(s: Seq<u8>)
    requires
        forall|i: int| 0 <= i < s.len() ==> is_digit(#[trigger] s[i]),
    ensures
        decimal_value(s) >= 0,
    decreases s.len(),
{
    if s.len() > 0 {
        lemma_decimal_nonneg(s.drop_last());
        assert(decimal_value(s.drop_last()) * 10 >= 0) by (nonlinear_arith)
            requires
                decimal_value(s.drop_last()) >= 0,
        ;
    }
}

/// Parses an unsigned decimal no larger than `bound` from raw bytes.
pub fn parse_decimal_bounded(bytes: &[u8], bound: u64) -> (res: Option<u64>)
    requires
        bound <= u32::MAX,
    ensures
        res is Some <==> (is_decimal(bytes@) && decimal_value(decimal_digits(bytes@)) <= bound),
        res matches Some(v) ==> v as int == decimal_value(decimal_digits(bytes@)),
{
    let len = bytes.len();
    let start: usize = if len > 0 && bytes[0] == 43 {
        1
    } else {
        0
    };
    let ghost digits = decimal_digits(bytes@);
    proof {
        if len > 0 && bytes@[0] == 43 {
            assert(digits =~= bytes@.subrange(1, len as int));
        } else {
            assert(digits =~= bytes@);
        }
    }
    if start >= len {
        return None;
    }
    let mut acc: u64 = 0;
    let mut i: usize = start;
    proof {
        assert(digits.take(0) =~= Seq::<u8>::empty());
    }
    while i < len
        invariant
            start <= i <= len,
            len == bytes@.len(),
            start <= 1,
            bound <= u32::MAX,
            digits == decimal_digits(bytes@),
            digits.len() == len - start,
            forall|k: int| start <= k < len ==> digits[k - start] == bytes@[k],
            forall|k: int| 0 <= k < i - start ==> is_digit(#[trigger] digits[k]),
            acc as int == decimal_value(digits.take(i - start)),
            acc <= bound,
        decreases len - i,
    {
        let b = bytes[i];
        if b < 48 || b > 57 {
            proof {
                assert(!is_digit(digits[i - start]));
            }
            return None;
        }
        let d = (b - 48) as u64;
        proof {
            assert(digits.take(i - start + 1).drop_last() =~= digits.take(i - start));
            assert(digits.take(i - start + 1).last() == digits[i - start]);
            assert(acc as int * 10 <= bound * 10) by (nonlinear_arith)
                requires
                    acc as int <= bound as int,
                    acc as int >= 0,
            ;
        }
        let next = acc * 10 + d;
        if next > bound {
            proof {
                if forall|k: int| 0 <= k < digits.len() ==> is_digit(#[trigger] digits[k]) {
                    lemma_overflow_path(digits, i - start + 1, bound as int, next as int);
                }
            }
            return None;
        }
        acc = next;
        i = i + 1;
    }
    proof {
        assert(digits.take(digits.len() as int) =~= digits);
    }
    Some(acc)
}

/// If some prefix of the digit string already denotes more than `bound`,
/// the whole string does.
proof fn lemma_overflow_path(digits: Seq<u8>, j: int, bound: int, prefix_value: int)
    requires
        0 <= j <= digits.len(),
        prefix_value == decimal_value(digits.take(j)),
        prefix_value > bound,
        forall|k: int| 0 <= k < digits.len() ==> is_digit(#[trigger] digits[k]),
    ensures
        decimal_value(digits) > bound,
{
    lemma_decimal_prefix_le(digits, j);
}

/// The comma-separated segments of a byte string, in order; an empty
/// string is one empty segment, as the splitting of the standard library
/// has it.
pub open spec fn split_commas(s: Seq<u8>) -> Seq<Seq<u8>>
    decreases s.len(),
{
    if s.len() == 0 {
        seq![s]
    } else if s.last() == 44 {
        split_commas(s.drop_last()).push(Seq::empty())
    } else {
        let parts = split_commas(s.drop_last());
        parts.update(parts.len() - 1, parts.last().push(s.last()))
    }
}

/// The splitting always yields at least one segment.
pub proof fn lemma_split_commas_len(s: Seq<u8>)
    ensures
        split_commas(s).len() >= 1,
    decreases s.len(),
{
    if s.len() > 0 {
        lemma_split_commas_len(s.drop_last());
    }
}

/// A byte string without its leading and trailing spaces and tabs.
pub open spec fn is_blank(b: u8) -> bool {
    b == 32 || b == 9
}

pub open spec fn trim_front(s: Seq<u8>) -> Seq<u8>
    decreases s.len(),
{
    if s.len() > 0 && is_blank(s[0]) {
        trim_front(s.subrange(1, s.len() as int))
    } else {
        s
    }
}

pub open spec fn trim_back(s: Seq<u8>) -> Seq<u8>
    decreases s.len(),
{
    if s.len() > 0 && is_blank(s.last()) {
        trim_back(s.drop_last())
    } else {
        s
    }
}

pub open spec fn trim_bytes(s: Seq<u8>) -> Seq<u8> {
    trim_back(trim_front(s))
}

/// Removes leading and trailing blanks from a segment.
fn trim_segment(seg: &Vec<u8>) -> (res: Vec<u8>)
    ensures
        res@ == trim_bytes(seg@),
{
    let mut start: usize = 0;
    let len = seg.len();
    proof {
        assert(seg@.subrange(0, len as int) =~= seg@);
    }
    while start < len && (seg[start] == 32 || seg[start] == 9)
        invariant
            start <= len,
            len == seg@.len(),
            trim_front(seg@) == trim_front(seg@.subrange(start as int, len as int)),
        decreases len - start,
    {
        proof {
            let cur = seg@.subrange(start as int, len as int);
            assert(cur[0] == seg@[start as int]);
            assert(cur.subrange(1, cur.len() as int) =~= seg@.subrange(
                start + 1,
                len as int,
            ));
        }
        start = start + 1;
    }
    let mut end: usize = len;
    proof {
        let cur = seg@.subrange(start as int, len as int);
        if start < len {
            assert(!is_blank(cur[0]));
        }
        assert(trim_front(seg@) == cur);
    }
    while end > start && (seg[end - 1] == 32 || seg[end - 1] == 9)
        invariant
            start <= end <= len,
            len == seg@.len(),
            trim_front(seg@) == seg@.subrange(start as int, len as int),
            start < len ==> !is_blank(seg@[start as int]),
            trim_back(trim_front(seg@)) == trim_back(
                seg@.subrange(start as int, end as int),
            ),
        decreases end,
    {
        proof {
            let cur = seg@.subrange(start as int, end as int);
            assert(cur.last() == seg@[end - 1]);
            assert(cur.drop_last() =~= seg@.subrange(start as int, end - 1));
        }
        end = end - 1;
    }
    proof {
        let cur = seg@.subrange(start as int, end as int);
        if end > start {
            assert(cur.last() == seg@[end - 1]);
            assert(!is_blank(cur.last()));
        }
        assert(trim_back(cur) == cur);
    }
    let mut out: Vec<u8> = Vec::new();
    let mut i: usize = start;
    while i < end
        invariant
            start <= i <= end <= len,
            len == seg@.len(),
            out@ == seg@.subrange(start as int, i as int),
        decreases end - i,
    {
        out.push(seg[i]);
        proof {
            assert(out@ =~= seg@.subrange(start as int, i + 1));
        }
        i = i + 1;
    }
    proof {
        assert(out@ =~= seg@.subrange(start as int, end as int));
    }
    out
}

/// Splits a byte string on commas.
fn split_segments(bytes: &[u8]) -> (res: Vec<Vec<u8>>)
    ensures
        res@.map_values(|v: Vec<u8>| v@) == split_commas(bytes@),
        res@.len() >= 1,
{
    let mut segments: Vec<Vec<u8>> = Vec::new();
    let mut cur: Vec<u8> = Vec::new();
    let mut i: usize = 0;
    let len = bytes.len();
    proof {
        assert(bytes@.take(0) =~= Seq::<u8>::empty());
        assert(split_commas(bytes@.take(0)) =~= seq![Seq::<u8>::empty()]);
        assert(segments@.map_values(|v: Vec<u8>| v@).push(cur@) =~= split_commas(
            bytes@.take(0),
        ));
    }
    while i < len
        invariant
            i <= len,
            len == bytes@.len(),
            segments@.map_values(|v: Vec<u8>| v@).push(cur@) == split_commas(
                bytes@.take(i as int),
            ),
        decreases len - i,
    {
        let ghost pre_views = segments@.map_values(|v: Vec<u8>| v@);
        proof {
            assert(bytes@.take(i + 1).drop_last() =~= bytes@.take(i as int));
            assert(bytes@.take(i + 1).last() == bytes@[i as int]);
        }
        let b = bytes[i];
        if b == 44 {
            segments.push(cur);
            cur = Vec::new();
            proof {
                assert(segments@.map_values(|v: Vec<u8>| v@) =~= pre_views.push(
                    split_commas(bytes@.take(i as int)).last(),
                ));
                assert(segments@.map_values(|v: Vec<u8>| v@).push(cur@) =~= split_commas(
                    bytes@.take(i + 1),
                ));
            }
        } else {
            cur.push(b);
            proof {
                let parts = split_commas(bytes@.take(i as int));
                assert(parts.update(parts.len() - 1, parts.last().push(b)) =~= pre_views.push(
                    cur@,
                ));
                assert(segments@.map_values(|v: Vec<u8>| v@).push(cur@) =~= split_commas(
                    bytes@.take(i + 1),
                ));
            }
        }
        i = i + 1;
    }
    proof {
        assert(bytes@.take(len as int) =~= bytes@);
    }
    segments.push(cur);
    proof {
        lemma_split_commas_len(bytes@);
        assert(segments@.map_values(|v: Vec<u8>| v@) =~= split_commas(bytes@));
    }
    segments
}

/// Parses a comma-separated list of peer ids: each segment, blanks
/// trimmed, must be a decimal in the 8-bit range.
pub fn parse_peer_id_list(bytes: &[u8]) -> (res: Option<Vec<u8>>)
    ensures
        res is Some <==> (forall|k: int|
            0 <= k < split_commas(bytes@).len() ==> {
                let seg = trim_bytes(#[trigger] split_commas(bytes@)[k]);
                is_decimal(seg) && decimal_value(decimal_digits(seg)) <= 255
            }),
        res matches Some(ids) ==> {
            &&& ids@.len() == split_commas(bytes@).len()
            &&& forall|k: int|
                0 <= k < ids@.len() ==> ids@[k] as int == decimal_value(
                    decimal_digits(trim_bytes(#[trigger] split_commas(bytes@)[k])),
                )
        },
{
    let segments = split_segments(bytes);
    let mut ids: Vec<u8> = Vec::new();
    let mut i: usize = 0;
    let n = segments.len();
    while i < n
        invariant
            i <= n,
            n == segments@.len(),
            segments@.map_values(|v: Vec<u8>| v@) == split_commas(bytes@),
            ids@.len() == i,
            forall|k: int|
                0 <= k < i ==> {
                    let seg = trim_bytes(#[trigger] split_commas(bytes@)[k]);
                    is_decimal(seg) && decimal_value(decimal_digits(seg)) <= 255
                },
            forall|k: int|
                0 <= k < i ==> ids@[k] as int == decimal_value(
                    decimal_digits(trim_bytes(#[trigger] split_commas(bytes@)[k])),
                ),
        decreases n - i,
    {
        let trimmed = trim_segment(&segments[i]);
        proof {
            assert(segments@.map_values(|v: Vec<u8>| v@)[i as int] == segments@[i as int]@);
            assert(trimmed@ == trim_bytes(split_commas(bytes@)[i as int]));
        }
        let id = match parse_decimal_bounded(trimmed.as_slice(), 255) {
            Some(v) => v as u8,
            None => {
                return None;
            },
        };
        ids.push(id);
        i = i + 1;
    }
    Some(ids)
}

/// Why a caller is rejected.
#[derive(Clone, Copy, PartialEq, Eq, Structural, Debug)]
pub enum AuthError {
    /// The peer id header is absent.
    MissingPeerId,
    /// The peer id header is not a number in range.
    InvalidPeerId,
    /// The id is not in the configured peer set.
    UnknownPeer(u8),
}

/// Checks the peer id a request carries: present, numeric, and belonging
/// to a configured peer. Returns that peer.
pub fn authorize_peer(header: Option<&[u8]>, peers: &Vec<Peer>) -> (res: Result<Peer, AuthError>)
    ensures
        res is Ok <==> (header matches Some(h) && is_decimal(h@) && decimal_value(
            decimal_digits(h@),
        ) <= 255 && (exists|i: int|
            0 <= i < peers@.len() && (#[trigger] peers@[i]).id == decimal_value(
                decimal_digits(h@),
            ))),
        header is None <==> res == Result::<Peer, AuthError>::Err(AuthError::MissingPeerId),
        header matches Some(h) && !(is_decimal(h@) && decimal_value(decimal_digits(h@)) <= 255)
            ==> res == Result::<Peer, AuthError>::Err(AuthError::InvalidPeerId),
        res matches Ok(p) ==> exists|i: int|
            0 <= i < peers@.len() && (#[trigger] peers@[i]).id == p.id && peers@[i].url@ == p.url@
                && (header matches Some(h) && is_decimal(h@) && decimal_value(decimal_digits(h@))
                == p.id),
        header matches Some(h) && is_decimal(h@) && decimal_value(decimal_digits(h@)) <= 255
            && !(exists|i: int|
            0 <= i < peers@.len() && (#[trigger] peers@[i]).id == decimal_value(
                decimal_digits(h@),
            )) ==> res is Err,
{
    let h = match header {
        Some(h) => h,
        None => {
            return Err(AuthError::MissingPeerId);
        },
    };
    let id64 = match parse_decimal_bounded(h, 255) {
        Some(v) => v,
        None => {
            return Err(AuthError::InvalidPeerId);
        },
    };
    let id = id64 as u8;
    let mut i: usize = 0;
    while i < peers.len()
        invariant
            header matches Some(hh) && is_decimal(hh@) && decimal_value(decimal_digits(hh@))
                == id,
            i <= peers@.len(),
            forall|j: int| 0 <= j < i ==> (#[trigger] peers@[j]).id != id,
        decreases peers@.len() - i,
    {
        if peers[i].id == id {
            let p = peers[i].clone();
            proof {
                assert((peers@[i as int]).id == id);
            }
            return Ok(p);
        }
        i = i + 1;
    }
    Err(AuthError::UnknownPeer(id))
}

} // verus!
