use vstd::prelude::*;
use vstd::string::StringSliceAdditionalSpecFns;
use crate::gacha_url::ENDPOINT;

verus! {

/// Bytes after the start of a URL that the scan looks at, at most.
pub const MAX_URL_LEN: usize = 4096;

/// `needle` stands in `hay` starting at byte `i`.
pub open spec fn occurs(hay: Seq<u8>, needle: Seq<u8>, i: int) -> bool {
    0 <= i && i + needle.len() <= hay.len() && hay.subrange(i, i + needle.len()) == needle
}

pub open spec fn scheme_bytes() -> Seq<u8> {
    seq![104u8, 116u8, 116u8, 112u8, 115u8, 58u8, 47u8, 47u8]
}

pub open spec fn auth_key_bytes() -> Seq<u8> {
    seq![97u8, 117u8, 116u8, 104u8, 107u8, 101u8, 121u8, 61u8]
}

pub open spec fn marker_bytes() -> Seq<u8> {
    ENDPOINT.spec_bytes()
}

/// A byte that can stand in a URL: printable ASCII but the double quote.
pub open spec fn is_url_byte(b: u8) -> bool {
    0x21 <= b <= 0x7e && b != 0x22
}

/// Where the URL that starts at `s` ends, scanning from `i`: at the first byte
/// that cannot stand in a URL, the end of the data, or `MAX_URL_LEN` bytes.
pub open spec fn url_end_from(d: Seq<u8>, s: int, i: int) -> int
    decreases d.len() - i,
{
    if i >= d.len() || i >= s + MAX_URL_LEN || !is_url_byte(d[i]) {
        i
    } else {
        url_end_from(d, s, i + 1)
    }
}

pub open spec fn url_bytes(d: Seq<u8>, s: int) -> Seq<u8> {
    d.subrange(s, url_end_from(d, s, s))
}

/// The parameter `authkey` starts at `i`, right after a `?` or `&`, and has a
/// non-empty value.
pub open spec fn auth_at(u: Seq<u8>, i: int) -> bool {
    &&& 0 < i
    &&& (u[i - 1] == 63u8 || u[i - 1] == 38u8)
    &&& occurs(u, auth_key_bytes(), i)
    &&& i + 8 < u.len()
    &&& u[i + 8] != 38u8
}

/// The URL carries an `authkey` parameter with a non-empty value.
pub open spec fn has_auth(u: Seq<u8>) -> bool {
    exists|i: int| #[trigger] auth_at(u, i)
}

pub open spec fn contains_marker(u: Seq<u8>) -> bool {
    exists|i: int| #[trigger] occurs(u, marker_bytes(), i)
}

/// A history URL starts at `s`, with room for its timestamp before it.
pub open spec fn is_candidate(d: Seq<u8>, s: int) -> bool {
    &&& 8 <= s
    &&& occurs(d, scheme_bytes(), s)
    &&& contains_marker(url_bytes(d, s))
    &&& has_auth(url_bytes(d, s))
}

/// The little-endian value of the bytes `b[k..8]`, shifted down by `k` bytes.
pub open spec fn le_from(b: Seq<u8>, k: int) -> nat
    decreases 8 - k,
{
    if k >= 8 || k < 0 {
        0
    } else {
        b[k] as nat + 256 * le_from(b, k + 1)
    }
}

pub open spec fn pow256(n: nat) -> nat
    decreases n,
{
    if n == 0 { 1 } else { 256 * pow256((n - 1) as nat) }
}

/// The FILETIME stored in the eight bytes before the URL at `s`.
pub open spec fn stamp(d: Seq<u8>, s: int) -> nat {
    le_from(d.subrange(s - 8, s), 0)
}

/// The most recent URL found in a cache file.
pub struct FoundUrl {
    /// Where the URL starts in the file.
    pub position: usize,
    /// Its creation time, as a Windows FILETIME.
    pub filetime: u64,
    /// Its bytes.
    pub url: Vec<u8>,
}

#[derive(Debug, PartialEq, Eq, Structural)]
pub enum CacheError {
    /// No usable history URL is in the file.
    NotFound,
}

proof fn lemma_le_bound(b: Seq<u8>, k: int)
    requires
        0 <= k <= 8,
    ensures
        le_from(b, k) < pow256((8 - k) as nat),
    decreases 8 - k,
{
    if k < 8 {
        lemma_le_bound(b, k + 1);
    }
}

/// The little-endian integer of eight bytes.
fn read_le_u64(d: &[u8], at: usize) -> (r: u64)
    requires
        at + 8 <= d@.len(),
    ensures
        r == le_from(d@.subrange(at as int, at + 8), 0),
{
    let ghost b = d@.subrange(at as int, at + 8);
    let n = d.len();
    let mut acc: u64 = 0;
    let mut k: usize = 8;
    proof {
        reveal_with_fuel(pow256, 9);
        assert(pow256(8) == 0x1_0000_0000_0000_0000);
    }
    while k > 0
        invariant
            k <= 8,
            n == d@.len(),
            at + 8 <= n,
            b == d@.subrange(at as int, at + 8),
            acc == le_from(b, k as int),
            pow256(8) == 0x1_0000_0000_0000_0000,
        decreases k,
    {
        k = k - 1;
        proof {
            lemma_le_bound(b, k as int);
            reveal_with_fuel(pow256, 9);
        }
        assert(b[k as int] == d@[at + k]);
        acc = d[at + k] as u64 + 256 * acc;
    }
    acc
}

/// `needle` stands in `d` at `i`.
fn bytes_at(d: &[u8], i: usize, needle: &[u8]) -> (r: bool)
    ensures
        r == occurs(d@, needle@, i as int),
{
    if needle.len() > d.len() || i > d.len() - needle.len() {
        return false;
    }
    let n = d.len();
    let mut k: usize = 0;
    while k < needle.len()
        invariant
            n == d@.len(),
            i + needle@.len() <= n,
            k <= needle@.len(),
            d@.subrange(i as int, i + k) == needle@.subrange(0, k as int),
        decreases needle@.len() - k,
    {
        if d[i + k] != needle[k] {
            assert(d@.subrange(i as int, i + needle@.len())[k as int] != needle@[k as int]);
            return false;
        }
        assert(d@.subrange(i as int, i + k + 1) =~= d@.subrange(i as int, i + k).push(d@[i + k]));
        assert(needle@.subrange(0, k + 1) =~= needle@.subrange(0, k as int).push(needle@[k as int]));
        k = k + 1;
    }
    assert(needle@.subrange(0, k as int) =~= needle@);
    true
}

proof fn lemma_occurs_sub(d: Seq<u8>, lo: int, hi: int, n: Seq<u8>, j: int)
    requires
        0 <= lo <= hi <= d.len(),
        0 <= j,
        j + n.len() <= hi - lo,
    ensures
        occurs(d.subrange(lo, hi), n, j) == occurs(d, n, lo + j),
{
    assert(d.subrange(lo, hi).subrange(j, j + n.len()) =~= d.subrange(lo + j, lo + j + n.len()));
}

/// Where the URL that starts at `s` ends.
fn scan_url_end(d: &[u8], s: usize) -> (e: usize)
    requires
        s <= d@.len(),
    ensures
        e == url_end_from(d@, s as int, s as int),
        s <= e <= d@.len(),
{
    let mut i: usize = s;
    while i < d.len() && i - s < MAX_URL_LEN && 0x21 <= d[i] && d[i] <= 0x7e && d[i] != 0x22
        invariant
            s <= i <= d@.len(),
            i <= s + MAX_URL_LEN,
            url_end_from(d@, s as int, s as int) == url_end_from(d@, s as int, i as int),
        decreases d@.len() - i,
    {
        i = i + 1;
    }
    i
}

/// Whether the URL that starts at `s` and ends at `e` holds `needle` anywhere.
fn contains_within(d: &[u8], s: usize, e: usize, needle: &[u8]) -> (r: bool)
    requires
        s <= e <= d@.len(),
    ensures
        r == exists|i: int| #[trigger] occurs(d@.subrange(s as int, e as int), needle@, i),
{
    let mut i: usize = s;
    while i < e
        invariant
            s <= i <= e <= d@.len(),
            forall|j: int| 0 <= j < i - s ==> !#[trigger] occurs(d@.subrange(s as int, e as int), needle@, j),
        decreases e - i,
    {
        if needle.len() <= e - i && bytes_at(d, i, needle) {
            proof {
                lemma_occurs_sub(d@, s as int, e as int, needle@, i - s);
            }
            return true;
        }
        proof {
            if i - s + needle@.len() <= e - s {
                lemma_occurs_sub(d@, s as int, e as int, needle@, i - s);
            }
        }
        i = i + 1;
    }
    proof {
        if needle@.len() == 0 {
            assert(d@.subrange(s as int, e as int).subrange(e - s, e - s) =~= needle@);
            assert(occurs(d@.subrange(s as int, e as int), needle@, e - s));
        }
    }
    needle.len() == 0
}

/// Whether the URL from `s` to `e` has an `authkey` with a non-empty value.
fn auth_within(d: &[u8], s: usize, e: usize) -> (r: bool)
    requires
        s <= e <= d@.len(),
    ensures
        r == has_auth(d@.subrange(s as int, e as int)),
{
    let key: [u8; 8] = [97u8, 117u8, 116u8, 104u8, 107u8, 101u8, 121u8, 61u8];
    assert(key@ =~= auth_key_bytes());
    let ghost u = d@.subrange(s as int, e as int);
    let mut i: usize = s;
    while i < e
        invariant
            s <= i <= e <= d@.len(),
            u == d@.subrange(s as int, e as int),
            key@ == auth_key_bytes(),
            forall|j: int| 0 <= j < i - s ==> !#[trigger] auth_at(u, j),
        decreases e - i,
    {
        if 9 <= e - i {
            proof {
                lemma_occurs_sub(d@, s as int, e as int, auth_key_bytes(), i - s);
            }
            if i > s && (d[i - 1] == 63u8 || d[i - 1] == 38u8) && bytes_at(d, i, key.as_slice()) && d[i + 8] != 38u8 {
                assert(u[i - s + 8] == d@[i + 8]);
                assert(u[i - s - 1] == d@[i - 1]);
                assert(auth_at(u, i - s));
                return true;
            }
            assert(u[i - s + 8] == d@[i + 8]);
            assert(i > s ==> u[i - s - 1] == d@[i - 1]);
        }
        i = i + 1;
    }
    false
}

/// Whether a history URL with an authentication key starts at `s`; and where
/// it ends.
fn candidate_at(d: &[u8], s: usize) -> (r: (bool, usize))
    requires
        s <= d@.len(),
    ensures
        r.0 == is_candidate(d@, s as int),
        r.0 ==> r.1 == url_end_from(d@, s as int, s as int),
{
    let scheme: [u8; 8] = [104u8, 116u8, 116u8, 112u8, 115u8, 58u8, 47u8, 47u8];
    assert(scheme@ =~= scheme_bytes());
    if s < 8 || !bytes_at(d, s, scheme.as_slice()) {
        return (false, s);
    }
    let e = scan_url_end(d, s);
    let marker = ENDPOINT.as_bytes();
    assert(marker@ == marker_bytes());
    let has_marker = contains_within(d, s, e, marker);
    let has_key = auth_within(d, s, e);
    assert(url_bytes(d@, s as int) == d@.subrange(s as int, e as int));
    assert(has_marker == contains_marker(url_bytes(d@, s as int)));
    assert(has_key == has_auth(url_bytes(d@, s as int)));
    (has_marker && has_key, e)
}

/// The URL with the latest timestamp among the history URLs that carry an
/// authentication key; of two with the same timestamp, the later in the file.
pub fn find_recent_gacha_url(data: &[u8]) -> (r: Result<FoundUrl, CacheError>)
    ensures
        match r {
            Ok(f) => {
                &&& is_candidate(data@, f.position as int)
                &&& f.url@ == url_bytes(data@, f.position as int)
                &&& f.filetime == stamp(data@, f.position as int)
                &&& forall|s: int|
                    #[trigger] is_candidate(data@, s) ==> stamp(data@, s) < f.filetime || (stamp(data@, s)
                        == f.filetime && s <= f.position)
            },
            Err(e) => e == CacheError::NotFound && forall|s: int| !#[trigger] is_candidate(data@, s),
        },
{
    let mut best: Option<(usize, u64, usize)> = None;
    let mut s: usize = 0;
    while s < data.len()
        invariant
            s <= data@.len(),
            match best {
                Some((p, t, e)) => {
                    &&& p < s
                    &&& is_candidate(data@, p as int)
                    &&& t == stamp(data@, p as int)
                    &&& e == url_end_from(data@, p as int, p as int)
                    &&& forall|q: int|
                        0 <= q < s && #[trigger] is_candidate(data@, q) ==> stamp(data@, q) < t || (stamp(
                            data@,
                            q,
                        ) == t && q <= p)
                },
                None => forall|q: int| 0 <= q < s ==> !#[trigger] is_candidate(data@, q),
            },
        decreases data@.len() - s,
    {
        let (ok, e) = candidate_at(data, s);
        if ok {
            let t = read_le_u64(data, s - 8);
            let take = match best {
                Some((_, bt, _)) => t >= bt,
                None => true,
            };
            if take {
                best = Some((s, t, e));
            }
        }
        s = s + 1;
    }
    proof {
        assert forall|q: int| q >= data@.len() || q < 0 implies !#[trigger] is_candidate(data@, q) by {}
    }
    match best {
        Some((p, t, e)) => {
            let mut url: Vec<u8> = Vec::new();
            let mut i: usize = p;
            proof {
                lemma_url_end_bounds(data@, p as int, p as int);
            }
            while i < e
                invariant
                    p <= i <= e <= data@.len(),
                    url@ == data@.subrange(p as int, i as int),
                decreases e - i,
            {
                url.push(data[i]);
                assert(data@.subrange(p as int, i + 1) =~= data@.subrange(p as int, i as int).push(data@[i as int]));
                i = i + 1;
            }
            Ok(FoundUrl { position: p, filetime: t, url })
        },
        None => Err(CacheError::NotFound),
    }
}

proof fn lemma_url_end_bounds(d: Seq<u8>, s: int, i: int)
    requires
        0 <= i <= d.len(),
    ensures
        i <= url_end_from(d, s, i) <= d.len(),
    decreases d.len() - i,
{
    if !(i >= d.len() || i >= s + MAX_URL_LEN || !is_url_byte(d[i])) {
        lemma_url_end_bounds(d, s, i + 1);
    }
}

} // verus!
