use vstd::prelude::*;
use vstd::string::{StrSliceExecFns, StringExecFns};
use crate::text::{find_str, first_occurrence, lemma_first_from, lemma_first_from_at, occurs_at, str_equal};

verus! {

/// The path that ends every gacha history endpoint URL.
pub const ENDPOINT: &'static str = "/event/gacha_info/api/getGachaLog";

pub open spec fn endpoint_marker() -> Seq<char> {
    ENDPOINT@
}

/// One `key=value` pair of a URL query.
pub struct QueryParam {
    pub key: String,
    pub value: String,
}

/// A history URL split into the endpoint and the query pairs it keeps.
pub struct NormalizedUrl {
    pub base: String,
    pub params: Vec<QueryParam>,
}

#[derive(Debug, PartialEq, Eq, Structural)]
pub enum GachaUrlError {
    /// The URL does not contain the history endpoint.
    MalformedUrl,
}

pub open spec fn pair_view(p: QueryParam) -> (Seq<char>, Seq<char>) {
    (p.key@, p.value@)
}

pub open spec fn params_view(s: Seq<QueryParam>) -> Seq<(Seq<char>, Seq<char>)> {
    s.map_values(|p: QueryParam| pair_view(p))
}

/// Keys that drive pagination and are set anew on each request.
pub open spec fn is_pagination_key(k: Seq<char>) -> bool {
    k == "gacha_type"@ || k == "page"@ || k == "size"@ || k == "end_id"@
}

pub open spec fn keeps_pair(p: (Seq<char>, Seq<char>)) -> bool {
    !is_pagination_key(p.0)
}

/// The query pairs without the pagination keys, in their order.
pub open spec fn strip_pagination(pairs: Seq<(Seq<char>, Seq<char>)>) -> Seq<(Seq<char>, Seq<char>)> {
    pairs.filter(|p: (Seq<char>, Seq<char>)| keeps_pair(p))
}

/// The last position in `d` of a pair with key `k`.
pub open spec fn key_index(d: Seq<(Seq<char>, Seq<char>)>, k: Seq<char>) -> Option<int>
    decreases d.len(),
{
    if d.len() == 0 {
        None
    } else if d.last().0 == k {
        Some(d.len() - 1)
    } else {
        key_index(d.drop_last(), k)
    }
}

/// One pair per key, where a later pair replaces the value of an earlier one
/// in its place.
pub open spec fn dedup_keys(s: Seq<(Seq<char>, Seq<char>)>) -> Seq<(Seq<char>, Seq<char>)>
    decreases s.len(),
{
    if s.len() == 0 {
        s
    } else {
        let d = dedup_keys(s.drop_last());
        match key_index(d, s.last().0) {
            Some(j) => d.update(j, s.last()),
            None => d.push(s.last()),
        }
    }
}

/// No two pairs share a key.
pub open spec fn keys_unique(s: Seq<(Seq<char>, Seq<char>)>) -> bool {
    forall|i: int, j: int| 0 <= i < j < s.len() ==> #[trigger] s[i].0 != #[trigger] s[j].0
}

/// The query as a map, where a later pair wins over an earlier one.
pub open spec fn pairs_map(s: Seq<(Seq<char>, Seq<char>)>) -> Map<Seq<char>, Seq<char>>
    decreases s.len(),
{
    if s.len() == 0 {
        Map::empty()
    } else {
        pairs_map(s.drop_last()).insert(s.last().0, s.last().1)
    }
}

/// What follows the endpoint, without the `?` that opens the query.
pub open spec fn query_text(rest: Seq<char>) -> Seq<char> {
    if rest.len() > 0 && rest[0] == '?' {
        rest.drop_first()
    } else {
        rest
    }
}

/// The pairs that `application/x-www-form-urlencoded` parsing gives for a
/// query text, percent-decoded, in their order.
pub uninterp spec fn form_pairs_of(q: Seq<char>) -> Seq<(Seq<char>, Seq<char>)>;

/// The serialization of a URL built from a base and query pairs; `None` where
/// the base does not parse as a URL.
pub uninterp spec fn url_with_params_of(base: Seq<char>, pairs: Seq<(Seq<char>, Seq<char>)>) -> Option<Seq<char>>;

pub open spec fn opt_string_view(o: Option<String>) -> Option<Seq<char>> {
    match o {
        Some(s) => Some(s@),
        None => None,
    }
}

/// Relies on `form_urlencoded::parse` with `into_owned`: the decoded pairs of
/// the query text, which depend on the text alone.
#[verifier::external_body]
fn parse_query(query: &str) -> (r: Vec<QueryParam>)
    ensures
        params_view(r@) == form_pairs_of(query@),
{
    form_urlencoded::parse(query.as_bytes()).into_owned().map(|(key, value)| QueryParam { key, value }).collect()
}

/// Relies on `url::Url::parse_with_params`: the URL of `base` with the pairs
/// appended to its query, or nothing where `base` does not parse; either way
/// it depends on the arguments alone.
#[verifier::external_body]
fn url_with_params(base: &str, params: &Vec<QueryParam>) -> (r: Option<String>)
    ensures
        opt_string_view(r) == url_with_params_of(base@, params_view(params@)),
{
    url::Url::parse_with_params(base, params.iter().map(|p| (p.key.as_str(), p.value.as_str()))).ok().map(|u| u.to_string())
}

/// The result of normalizing `url`, at the level of character sequences.
pub open spec fn normalize_spec(url: Seq<char>) -> Option<(Seq<char>, Seq<(Seq<char>, Seq<char>)>)> {
    match first_occurrence(url, endpoint_marker()) {
        Some(i) => {
            let end = i + endpoint_marker().len();
            Some((url.subrange(0, end), dedup_keys(strip_pagination(form_pairs_of(query_text(url.subrange(end, url.len() as int)))))))
        },
        None => None,
    }
}

/// Splits a history URL into the base up to and including the endpoint, and
/// its query pairs without the pagination keys, one pair per key (a later
/// value replaces an earlier one).
pub fn normalize_gacha_url(gacha_url: &str) -> (r: Result<NormalizedUrl, GachaUrlError>)
    ensures
        match normalize_spec(gacha_url@) {
            Some(n) => r matches Ok(u) && u.base@ == n.0 && params_view(u.params@) == n.1,
            None => r == Err::<NormalizedUrl, GachaUrlError>(GachaUrlError::MalformedUrl),
        },
{
    let pos = match find_str(gacha_url, ENDPOINT) {
        Some(p) => p,
        None => return Err(GachaUrlError::MalformedUrl),
    };
    let n = gacha_url.unicode_len();
    let end = pos + ENDPOINT.unicode_len();
    let base = String::from_str(gacha_url.substring_char(0, end));
    let rest = gacha_url.substring_char(end, n);
    let query = if end < n && rest.get_char(0) == '?' {
        rest.substring_char(1, n - end)
    } else {
        rest
    };
    assert(query@ =~= query_text(rest@));
    let parsed = parse_query(query);
    let stripped = strip_pagination_params(&parsed);
    let params = dedup_params(&stripped);
    Ok(NormalizedUrl { base, params })
}

/// Copies the pairs whose key is not a pagination key.
pub fn strip_pagination_params(parsed: &Vec<QueryParam>) -> (r: Vec<QueryParam>)
    ensures
        params_view(r@) == strip_pagination(params_view(parsed@)),
{
    let mut out: Vec<QueryParam> = Vec::new();
    let mut i: usize = 0;
    while i < parsed.len()
        invariant
            i <= parsed.len(),
            params_view(out@) == strip_pagination(params_view(parsed@.subrange(0, i as int))),
        decreases parsed.len() - i,
    {
        let p = &parsed[i];
        let k = p.key.as_str();
        let skip = str_equal(k, "gacha_type") || str_equal(k, "page") || str_equal(k, "size") || str_equal(k, "end_id");
        let ghost before = params_view(parsed@.subrange(0, i as int));
        let ghost after = params_view(parsed@.subrange(0, i + 1));
        assert(after.drop_last() =~= before);
        assert(after.last() == pair_view(parsed@[i as int]));
        assert(skip == !keeps_pair(after.last()));
        reveal(Seq::filter);
        assert(strip_pagination(after) == if keeps_pair(after.last()) {
            strip_pagination(before).push(after.last())
        } else {
            strip_pagination(before)
        });
        if !skip {
            out.push(QueryParam { key: p.key.clone(), value: p.value.clone() });
            assert(params_view(out@) =~= params_view(out@.drop_last()).push(pair_view(out@.last())));
        }
        i = i + 1;
    }
    assert(parsed@.subrange(0, i as int) =~= parsed@);
    out
}

proof fn lemma_key_index(d: Seq<(Seq<char>, Seq<char>)>, k: Seq<char>)
    ensures
        match key_index(d, k) {
            Some(j) => 0 <= j < d.len() && d[j].0 == k && forall|i: int| j < i < d.len() ==> d[i].0 != k,
            None => forall|i: int| 0 <= i < d.len() ==> d[i].0 != k,
        },
    decreases d.len(),
{
    if d.len() > 0 {
        lemma_key_index(d.drop_last(), k);
        assert(forall|i: int| 0 <= i < d.len() - 1 ==> d.drop_last()[i] == #[trigger] d[i]);
    }
}

/// The position of the last pair of `params` with key `k`.
fn find_key(params: &Vec<QueryParam>, k: &str) -> (r: Option<usize>)
    ensures
        match r {
            Some(j) => key_index(params_view(params@), k@) == Some(j as int),
            None => key_index(params_view(params@), k@) is None,
        },
{
    let ghost v = params_view(params@);
    let mut j: usize = params.len();
    assert(v.subrange(0, j as int) =~= v);
    while j > 0
        invariant
            j <= params@.len(),
            v == params_view(params@),
            key_index(v, k@) == key_index(v.subrange(0, j as int), k@),
        decreases j,
    {
        let ghost w = v.subrange(0, j as int);
        assert(w.last() == pair_view(params@[j - 1]));
        if str_equal(params[j - 1].key.as_str(), k) {
            return Some(j - 1);
        }
        assert(w.drop_last() =~= v.subrange(0, j - 1));
        j = j - 1;
    }
    None
}

/// Keeps one pair per key: a later pair replaces the value of an earlier one.
pub fn dedup_params(params: &Vec<QueryParam>) -> (r: Vec<QueryParam>)
    ensures
        params_view(r@) == dedup_keys(params_view(params@)),
{
    let ghost v = params_view(params@);
    let mut out: Vec<QueryParam> = Vec::new();
    let mut i: usize = 0;
    while i < params.len()
        invariant
            i <= params@.len(),
            v == params_view(params@),
            params_view(out@) == dedup_keys(v.subrange(0, i as int)),
        decreases params@.len() - i,
    {
        let p = &params[i];
        let ghost w = v.subrange(0, i + 1);
        assert(w.drop_last() =~= v.subrange(0, i as int));
        assert(w.last() == pair_view(params@[i as int]));
        let q = QueryParam { key: p.key.clone(), value: p.value.clone() };
        assert(pair_view(q) == w.last());
        assert(dedup_keys(w) == match key_index(dedup_keys(w.drop_last()), w.last().0) {
            Some(j) => dedup_keys(w.drop_last()).update(j, w.last()),
            None => dedup_keys(w.drop_last()).push(w.last()),
        });
        let found = find_key(&out, p.key.as_str());
        proof {
            lemma_key_index(params_view(out@), p.key@);
        }
        match found {
            Some(j) => {
                let ghost before = out@;
                out[j] = q;
                assert(params_view(out@) =~= params_view(before).update(j as int, pair_view(q)));
                assert(key_index(dedup_keys(w.drop_last()), w.last().0) == Some(j as int));
                assert(params_view(out@) == dedup_keys(w));
            },
            None => {
                out.push(q);
                assert(params_view(out@) =~= params_view(out@.drop_last()).push(pair_view(q)));
                assert(key_index(dedup_keys(w.drop_last()), w.last().0) is None);
                assert(params_view(out@) == dedup_keys(w));
            },
        }
        i = i + 1;
    }
    assert(v.subrange(0, i as int) =~= v);
    out
}

/// Deduplicated pairs have distinct keys, each pair comes from the input,
/// and they make the same map as the input.
pub proof fn lemma_dedup_keys(s: Seq<(Seq<char>, Seq<char>)>)
    ensures
        keys_unique(dedup_keys(s)),
        pairs_map(dedup_keys(s)) == pairs_map(s),
        forall|i: int| 0 <= i < dedup_keys(s).len() ==> s.contains(#[trigger] dedup_keys(s)[i]),
    decreases s.len(),
{
    if s.len() > 0 {
        let d = dedup_keys(s.drop_last());
        let p = s.last();
        lemma_dedup_keys(s.drop_last());
        lemma_key_index(d, p.0);
        assert forall|i: int| 0 <= i < d.len() implies s.contains(#[trigger] d[i]) by {
            let k = choose|k: int| 0 <= k < s.drop_last().len() && s.drop_last()[k] == d[i];
            assert(s[k] == d[i]);
        }
        assert(s[s.len() - 1] == p);
        match key_index(d, p.0) {
            Some(j) => {
                lemma_pairs_map_update(d, j, p);
            },
            None => {
                assert(d.push(p).drop_last() =~= d);
            },
        }
    }
}

proof fn lemma_pairs_map_update(d: Seq<(Seq<char>, Seq<char>)>, j: int, p: (Seq<char>, Seq<char>))
    requires
        0 <= j < d.len(),
        d[j].0 == p.0,
        keys_unique(d),
    ensures
        pairs_map(d.update(j, p)) == pairs_map(d).insert(p.0, p.1),
    decreases d.len(),
{
    let u = d.update(j, p);
    if j == d.len() - 1 {
        assert(u.drop_last() =~= d.drop_last());
        assert(pairs_map(u) =~= pairs_map(d).insert(p.0, p.1));
    } else {
        assert(u.drop_last() =~= d.drop_last().update(j, p));
        lemma_pairs_map_update(d.drop_last(), j, p);
        assert(d.last().0 != p.0);
        assert(pairs_map(u) =~= pairs_map(d).insert(p.0, p.1));
    }
}

/// Pairs with distinct keys are left as they are.
pub proof fn lemma_dedup_unique(s: Seq<(Seq<char>, Seq<char>)>)
    requires
        keys_unique(s),
    ensures
        dedup_keys(s) == s,
    decreases s.len(),
{
    if s.len() > 0 {
        let t = s.drop_last();
        lemma_dedup_unique(t);
        lemma_key_index(t, s.last().0);
        assert(t.push(s.last()) =~= s);
    }
}

/// Pairs that all keep their keys pass the stripping unchanged.
pub proof fn lemma_strip_keeps_all(s: Seq<(Seq<char>, Seq<char>)>)
    requires
        forall|i: int| 0 <= i < s.len() ==> keeps_pair(#[trigger] s[i]),
    ensures
        strip_pagination(s) == s,
    decreases s.len(),
{
    reveal(Seq::filter);
    if s.len() > 0 {
        lemma_strip_keeps_all(s.drop_last());
        assert(s.drop_last().push(s.last()) =~= s);
    }
}

/// Normalizes `gacha_url` and builds the request URL that carries the kept
/// pairs.
pub fn request_base_url(gacha_url: &str) -> (r: Result<Option<String>, GachaUrlError>)
    ensures
        match normalize_spec(gacha_url@) {
            Some(n) => r matches Ok(o) && opt_string_view(o) == url_with_params_of(n.0, n.1),
            None => r == Err::<Option<String>, GachaUrlError>(GachaUrlError::MalformedUrl),
        },
{
    let n = normalize_gacha_url(gacha_url)?;
    Ok(url_with_params(n.base.as_str(), &n.params))
}

/// Seconds for which a history URL stays valid after its creation.
pub const URL_LIFETIME_SECS: i64 = 86400;

/// Seconds between 1601-01-01 and 1970-01-01, both UTC.
pub const FILETIME_EPOCH_OFFSET_SECS: i64 = 11644473600;

/// 100-nanosecond ticks per second.
pub const FILETIME_TICKS_PER_SEC: u64 = 10000000;

/// Seconds since the Unix epoch of a Windows FILETIME, rounded down.
pub open spec fn filetime_secs(ticks: u64) -> int {
    (ticks / 10000000) as int - 11644473600
}

/// The Unix time, in whole seconds, of a Windows FILETIME.
pub fn filetime_to_unix_secs(ticks: u64) -> (r: i64)
    ensures
        r == filetime_secs(ticks),
{
    let secs = ticks / FILETIME_TICKS_PER_SEC;
    assert(secs <= 0xffff_ffff_ffff_ffffu64 / 10000000) by (nonlinear_arith)
        requires
            secs == ticks / 10000000,
    ;
    (secs as i64) - FILETIME_EPOCH_OFFSET_SECS
}

/// A URL created at `creation_secs` has expired at `now_secs` once a full day
/// has passed.
pub fn is_expired(creation_secs: i64, now_secs: i64) -> (r: bool)
    ensures
        r == (now_secs as int >= creation_secs as int + 86400),
{
    (now_secs as i128) >= (creation_secs as i128) + (URL_LIFETIME_SECS as i128)
}

/// Dropping the pagination keys a second time changes nothing.
pub proof fn lemma_strip_idempotent(pairs: Seq<(Seq<char>, Seq<char>)>)
    ensures
        strip_pagination(strip_pagination(pairs)) == strip_pagination(pairs),
    decreases pairs.len(),
{
    reveal(Seq::filter);
    if pairs.len() > 0 {
        lemma_strip_idempotent(pairs.drop_last());
        let s = strip_pagination(pairs.drop_last());
        if keeps_pair(pairs.last()) {
            let t = s.push(pairs.last());
            assert(t.drop_last() =~= s);
        }
    }
}

/// The endpoint found in a URL is found at the same place once anything is
/// appended after it.
pub proof fn lemma_base_stable(url: Seq<char>, rest: Seq<char>)
    requires
        first_occurrence(url, endpoint_marker()) is Some,
    ensures
        ({
            let i = first_occurrence(url, endpoint_marker())->Some_0;
            let base = url.subrange(0, i + endpoint_marker().len());
            first_occurrence(base + rest, endpoint_marker()) == Some(i)
        }),
{
    let e = endpoint_marker();
    let i = first_occurrence(url, e)->Some_0;
    let base = url.subrange(0, i + e.len());
    let h = base + rest;
    lemma_first_from(url, e, 0);
    assert(h.subrange(i, i + e.len()) =~= url.subrange(i, i + e.len()));
    assert(occurs_at(h, e, i));
    assert forall|j: int| 0 <= j < i implies !occurs_at(h, e, j) by {
        assert(!occurs_at(url, e, j));
        assert(h.subrange(j, j + e.len()) =~= url.subrange(j, j + e.len()));
    }
    lemma_first_from_at(h, e, 0, i);
}

/// Normalizing the base of a normalized URL, with any query after it, yields
/// the same base; and the kept pairs, normalized again, are left as they are:
/// no pagination key, one pair per key.
pub proof fn lemma_normalize_idempotent(url: Seq<char>, rest: Seq<char>)
    requires
        normalize_spec(url) is Some,
    ensures
        ({
            let n = normalize_spec(url)->Some_0;
            &&& normalize_spec(n.0 + rest) is Some
            &&& normalize_spec(n.0 + rest)->Some_0.0 == n.0
            &&& dedup_keys(strip_pagination(n.1)) == n.1
        }),
{
    lemma_base_stable(url, rest);
    let n = normalize_spec(url)->Some_0;
    let i = first_occurrence(url, endpoint_marker())->Some_0;
    let end = i + endpoint_marker().len();
    lemma_first_from(url, endpoint_marker(), 0);
    assert((n.0 + rest).subrange(0, end) =~= n.0);
    let st = strip_pagination(form_pairs_of(query_text(url.subrange(end, url.len() as int))));
    lemma_dedup_keys(st);
    assert forall|k: int| 0 <= k < n.1.len() implies keeps_pair(#[trigger] n.1[k]) by {
        assert(st.contains(n.1[k]));
        let m = choose|m: int| 0 <= m < st.len() && st[m] == n.1[k];
        reveal(Seq::filter);
        form_pairs_of(query_text(url.subrange(end, url.len() as int))).lemma_filter_pred(|p: (Seq<char>, Seq<char>)| keeps_pair(p), m);
    }
    lemma_strip_keeps_all(n.1);
    lemma_dedup_unique(n.1);
}

} // verus!
