use vstd::prelude::*;
use vstd::string::StringExecFns;
use crate::log::GachaLogEntry;
use crate::text::{lemma_lex_total, lex_le, str_equal, str_le};

verus! {

broadcast use vstd::seq_lib::group_to_multiset_ensures;

/// The revision of the interchange schema this library writes.
pub const UIGF_VERSION: &'static str = "v2.2";

/// The `info` header of an interchange document.
pub struct UIGFGachaLogInfo {
    pub uid: String,
    pub lang: String,
    pub export_time: String,
    pub export_timestamp: Option<i64>,
    pub export_app: String,
    pub export_app_version: String,
    pub uigf_version: String,
}

/// One wish record of an interchange document.
pub struct UIGFGachaLogEntry {
    pub count: Option<String>,
    pub gacha_type: String,
    pub id: String,
    pub item_id: Option<String>,
    pub item_type: String,
    pub lang: Option<String>,
    pub name: String,
    pub rank_type: Option<String>,
    pub time: Option<String>,
    pub uid: Option<String>,
    pub uigf_gacha_type: String,
}

/// An interchange document.
pub struct UIGFGachaLog {
    pub info: UIGFGachaLogInfo,
    pub list: Vec<UIGFGachaLogEntry>,
}

#[derive(Debug)]
pub enum UigfError {
    /// A record carries a category outside the known ones.
    UnknownCategory(String),
    /// There is no record to export.
    EmptyHistory,
}

/// The categories the history endpoint knows.
pub open spec fn is_known_category(g: Seq<char>) -> bool {
    g == "100"@ || g == "200"@ || g == "301"@ || g == "302"@ || g == "400"@
}

/// The interchange category of an endpoint category: each maps to itself but
/// `400`, which shares its pity with `301` and maps to it.
pub open spec fn uigf_gacha_type_of(g: Seq<char>) -> Option<Seq<char>> {
    if g == "100"@ || g == "200"@ || g == "301"@ || g == "302"@ {
        Some(g)
    } else if g == "400"@ {
        Some("301"@)
    } else {
        None
    }
}

pub open spec fn opt_view(o: Option<String>) -> Option<Seq<char>> {
    match o {
        Some(s) => Some(s@),
        None => None,
    }
}

/// `u` is the interchange record of `e`, with the player id kept or left out.
pub open spec fn is_uigf_of(u: UIGFGachaLogEntry, e: GachaLogEntry, keep_uid: bool) -> bool {
    &&& opt_view(u.count) == Some(e.count@)
    &&& u.gacha_type@ == e.gacha_type@
    &&& u.id@ == e.id@
    &&& opt_view(u.item_id) == Some(e.item_id@)
    &&& u.item_type@ == e.item_type@
    &&& opt_view(u.lang) == Some(e.lang@)
    &&& u.name@ == e.name@
    &&& opt_view(u.rank_type) == Some(e.rank_type@)
    &&& opt_view(u.time) == Some(e.time@)
    &&& opt_view(u.uid) == (if keep_uid { Some(e.uid@) } else { None })
    &&& uigf_gacha_type_of(e.gacha_type@) == Some(u.uigf_gacha_type@)
}

/// `c` holds the interchange records of `logs`, one for one.
pub open spec fn converts(c: Seq<UIGFGachaLogEntry>, logs: Seq<GachaLogEntry>, keep_uid: bool) -> bool {
    c.len() == logs.len() && forall|i: int| 0 <= i < c.len() ==> is_uigf_of(#[trigger] c[i], logs[i], keep_uid)
}

/// The record at `i` is the first whose category is unknown.
pub open spec fn first_unknown(logs: Seq<GachaLogEntry>, i: int) -> bool {
    &&& 0 <= i < logs.len()
    &&& uigf_gacha_type_of(logs[i].gacha_type@) is None
    &&& forall|j: int| 0 <= j < i ==> uigf_gacha_type_of(#[trigger] logs[j].gacha_type@) is Some
}

/// Records ascend by `id`, equal ids side by side.
pub open spec fn sorted_by_id(s: Seq<UIGFGachaLogEntry>) -> bool {
    forall|i: int| 0 <= i < s.len() - 1 ==> lex_le(#[trigger] s[i].id@, s[i + 1].id@)
}

/// Every category of the endpoint maps to a category of the interchange
/// format, and only those map at all.
pub proof fn lemma_remap_total(g: Seq<char>)
    ensures
        uigf_gacha_type_of(g) is Some <==> is_known_category(g),
        uigf_gacha_type_of(g) matches Some(u) ==> (u == "100"@ || u == "200"@ || u == "301"@ || u == "302"@),
{
}

/// The interchange category of `gacha_type`, if it is a known one.
pub fn uigf_gacha_type(gacha_type: &str) -> (r: Option<String>)
    ensures
        opt_view(r) == uigf_gacha_type_of(gacha_type@),
{
    if str_equal(gacha_type, "100") || str_equal(gacha_type, "200") || str_equal(gacha_type, "301")
        || str_equal(gacha_type, "302") {
        Some(String::from_str(gacha_type))
    } else if str_equal(gacha_type, "400") {
        Some(String::from_str("301"))
    } else {
        None
    }
}

impl UIGFGachaLogEntry {
    /// The interchange record of an endpoint record.
    pub fn from_official(entry: &GachaLogEntry, keep_uid: bool) -> (r: Result<UIGFGachaLogEntry, UigfError>)
        ensures
            match r {
                Ok(u) => is_uigf_of(u, *entry, keep_uid),
                Err(UigfError::UnknownCategory(g)) => g@ == entry.gacha_type@ && uigf_gacha_type_of(
                    entry.gacha_type@,
                ) is None,
                Err(UigfError::EmptyHistory) => false,
            },
    {
        let uigf_gacha_type = match uigf_gacha_type(entry.gacha_type.as_str()) {
            Some(t) => t,
            None => return Err(UigfError::UnknownCategory(entry.gacha_type.clone())),
        };
        Ok(UIGFGachaLogEntry {
            count: Some(entry.count.clone()),
            gacha_type: entry.gacha_type.clone(),
            id: entry.id.clone(),
            item_id: Some(entry.item_id.clone()),
            item_type: entry.item_type.clone(),
            lang: Some(entry.lang.clone()),
            name: entry.name.clone(),
            rank_type: Some(entry.rank_type.clone()),
            time: Some(entry.time.clone()),
            uid: if keep_uid { Some(entry.uid.clone()) } else { None },
            uigf_gacha_type,
        })
    }
}

/// The interchange records of `gacha_logs`, in their order; fails on the
/// first record whose category is unknown.
pub fn convect_gacha_logs_to_uigf(gacha_logs: &Vec<GachaLogEntry>, keep_uid: bool) -> (r: Result<
    Vec<UIGFGachaLogEntry>,
    UigfError,
>)
    ensures
        r is Ok <==> forall|i: int|
            0 <= i < gacha_logs@.len() ==> uigf_gacha_type_of(#[trigger] gacha_logs@[i].gacha_type@) is Some,
        r matches Ok(v) ==> converts(v@, gacha_logs@, keep_uid),
        r matches Err(e) ==> (e matches UigfError::UnknownCategory(g) && exists|i: int|
            #[trigger] first_unknown(gacha_logs@, i) && g@ == gacha_logs@[i].gacha_type@),
{
    let mut out: Vec<UIGFGachaLogEntry> = Vec::new();
    let mut i: usize = 0;
    while i < gacha_logs.len()
        invariant
            i <= gacha_logs@.len(),
            out@.len() == i,
            forall|j: int| 0 <= j < i ==> is_uigf_of(#[trigger] out@[j], gacha_logs@[j], keep_uid),
        decreases gacha_logs@.len() - i,
    {
        match UIGFGachaLogEntry::from_official(&gacha_logs[i], keep_uid) {
            Ok(u) => out.push(u),
            Err(e) => {
                assert(!(uigf_gacha_type_of(gacha_logs@[i as int].gacha_type@) is Some));
                assert forall|j: int| 0 <= j < i implies uigf_gacha_type_of(#[trigger] gacha_logs@[j].gacha_type@) is Some by {
                    assert(is_uigf_of(out@[j], gacha_logs@[j], keep_uid));
                }
                assert(first_unknown(gacha_logs@, i as int));
                return Err(e);
            },
        }
        i = i + 1;
    }
    assert forall|i: int| 0 <= i < gacha_logs@.len() implies uigf_gacha_type_of(
        #[trigger] gacha_logs@[i].gacha_type@,
    ) is Some by {
        assert(is_uigf_of(out@[i], gacha_logs@[i], keep_uid));
    }
    Ok(out)
}

/// `perm` places the records of `v` in `r`: `r[i]` is `v[perm[i]]`, each
/// record of `v` used once, and records with equal ids in their order in `v`.
pub open spec fn is_stable_perm(perm: Seq<int>, r: Seq<UIGFGachaLogEntry>, v: Seq<UIGFGachaLogEntry>) -> bool {
    &&& perm.len() == r.len()
    &&& r.len() == v.len()
    &&& forall|i: int| 0 <= i < r.len() ==> 0 <= #[trigger] perm[i] < v.len() && r[i] == v[perm[i]]
    &&& forall|i: int, j: int| 0 <= i < j < r.len() ==> #[trigger] perm[i] != #[trigger] perm[j]
    &&& forall|i: int, j: int|
        0 <= i < j < r.len() && (#[trigger] r[i]).id@ == (#[trigger] r[j]).id@ ==> perm[i] < perm[j]
}

/// `r` is `v` sorted by `id`, records with equal ids keeping their order.
pub open spec fn stable_sorted_of(r: Seq<UIGFGachaLogEntry>, v: Seq<UIGFGachaLogEntry>) -> bool {
    &&& sorted_by_id(r)
    &&& exists|perm: Seq<int>| #[trigger] is_stable_perm(perm, r, v)
}

/// Sorts records by `id`, ascending; records with equal ids keep their order.
pub fn sort_by_id(v: Vec<UIGFGachaLogEntry>) -> (r: Vec<UIGFGachaLogEntry>)
    ensures
        r@.to_multiset() == v@.to_multiset(),
        r@.len() == v@.len(),
        stable_sorted_of(r@, v@),
{
    let ghost orig = v@;
    let mut rest = v;
    let mut out: Vec<UIGFGachaLogEntry> = Vec::new();
    let ghost mut perm: Seq<int> = Seq::empty();
    while rest.len() > 0
        invariant
            out@.to_multiset().add(rest@.to_multiset()) == orig.to_multiset(),
            out@.len() + rest@.len() == orig.len(),
            rest@ == orig.subrange(0, rest@.len() as int),
            sorted_by_id(out@),
            perm.len() == out@.len(),
            forall|i: int| 0 <= i < out@.len() ==> rest@.len() <= #[trigger] perm[i] < orig.len() && out@[i] == orig[perm[i]],
            forall|i: int, j: int| 0 <= i < j < out@.len() ==> #[trigger] perm[i] != #[trigger] perm[j],
            forall|i: int, j: int|
                0 <= i < j < out@.len() && (#[trigger] out@[i]).id@ == (#[trigger] out@[j]).id@ ==> perm[i] < perm[j],
        decreases rest@.len(),
    {
        let ghost before = rest@;
        let x = rest.pop().unwrap();
        assert(before == rest@.push(x));
        assert(rest@ =~= orig.subrange(0, rest@.len() as int));
        let ghost xi = rest@.len() as int;
        assert(x == orig[xi]);
        let mut j: usize = 0;
        while j < out.len() && !str_le(x.id.as_str(), out[j].id.as_str())
            invariant
                j <= out@.len(),
                forall|k: int| 0 <= k < j ==> lex_le(#[trigger] out@[k].id@, x.id@) && !lex_le(x.id@, out@[k].id@),
            decreases out@.len() - j,
        {
            proof {
                lemma_lex_total(x.id@, out@[j as int].id@);
            }
            j = j + 1;
        }
        let ghost old_out = out@;
        let ghost old_perm = perm;
        out.insert(j, x);
        proof {
            perm = old_perm.insert(j as int, xi);
        }
        assert forall|i: int| 0 <= i < out@.len() - 1 implies lex_le(#[trigger] out@[i].id@, out@[i + 1].id@) by {
            if i + 1 < j {
                assert(out@[i] == old_out[i] && out@[i + 1] == old_out[i + 1]);
            } else if i + 1 == j {
                assert(out@[i] == old_out[i]);
            } else if i == j {
            } else {
                assert(out@[i] == old_out[i - 1] && out@[i + 1] == old_out[i]);
            }
        }
        assert forall|i: int| 0 <= i < out@.len() implies rest@.len() <= #[trigger] perm[i] < orig.len() && out@[i]
            == orig[perm[i]] by {
            if i < j {
                assert(perm[i] == old_perm[i] && out@[i] == old_out[i]);
            } else if i > j {
                assert(perm[i] == old_perm[i - 1] && out@[i] == old_out[i - 1]);
            }
        }
        assert forall|a: int, b: int| 0 <= a < b < out@.len() implies #[trigger] perm[a] != #[trigger] perm[b] by {
            if a != j && b != j {
                let oa = if a < j { a } else { a - 1 };
                let ob = if b < j { b } else { b - 1 };
                assert(perm[a] == old_perm[oa] && perm[b] == old_perm[ob]);
            } else if a == j {
                assert(perm[b] == old_perm[b - 1]);
            } else {
                assert(perm[a] == old_perm[a]);
            }
        }
        assert forall|a: int, b: int|
            0 <= a < b < out@.len() && (#[trigger] out@[a]).id@ == (#[trigger] out@[b]).id@ implies perm[a] < perm[b] by {
            if a != j && b != j {
                let oa = if a < j { a } else { a - 1 };
                let ob = if b < j { b } else { b - 1 };
                assert(perm[a] == old_perm[oa] && perm[b] == old_perm[ob]);
                assert(out@[a] == old_out[oa] && out@[b] == old_out[ob]);
            } else if a == j {
                assert(perm[b] == old_perm[b - 1]);
            } else {
                assert(out@[a] == old_out[a]);
                crate::text::lemma_lex_refl(x.id@);
            }
        }
    }
    assert(is_stable_perm(perm, out@, orig));
    out
}

/// Builds the interchange document of `gacha_logs`: their records sorted by
/// `id`, under a header with the first record's player and language.
pub fn gacha_logs_into_uigf(
    export_app: &str,
    export_app_version: &str,
    export_time: &str,
    export_timestamp: i64,
    gacha_logs: &Vec<GachaLogEntry>,
) -> (r: Result<UIGFGachaLog, UigfError>)
    ensures
        r is Ok <==> gacha_logs@.len() > 0 && forall|i: int|
            0 <= i < gacha_logs@.len() ==> uigf_gacha_type_of(#[trigger] gacha_logs@[i].gacha_type@) is Some,
        gacha_logs@.len() == 0 ==> r matches Err(UigfError::EmptyHistory),
        gacha_logs@.len() > 0 ==> !(r matches Err(UigfError::EmptyHistory)),
        r matches Err(UigfError::UnknownCategory(g)) ==> exists|i: int|
            #[trigger] first_unknown(gacha_logs@, i) && g@ == gacha_logs@[i].gacha_type@,
        r matches Ok(doc) ==> {
            &&& doc.list@.len() == gacha_logs@.len()
            &&& sorted_by_id(doc.list@)
            &&& exists|c: Seq<UIGFGachaLogEntry>|
                #[trigger] converts(c, gacha_logs@, true) && c.to_multiset() == doc.list@.to_multiset()
                    && stable_sorted_of(doc.list@, c)
            &&& opt_view(doc.list@[0].uid) == Some(doc.info.uid@)
            &&& opt_view(doc.list@[0].lang) == Some(doc.info.lang@)
            &&& doc.info.export_time@ == export_time@
            &&& doc.info.export_timestamp == Some(export_timestamp)
            &&& doc.info.export_app@ == export_app@
            &&& doc.info.export_app_version@ == export_app_version@
            &&& doc.info.uigf_version@ == UIGF_VERSION@
        },
{
    if gacha_logs.len() == 0 {
        return Err(UigfError::EmptyHistory);
    }
    let converted = convect_gacha_logs_to_uigf(gacha_logs, true)?;
    let ghost c = converted@;
    let list = sort_by_id(converted);
    proof {
        assert(c.to_multiset().contains(c[0]));
        assert(list@.to_multiset().contains(c[0]));
        assert(list@.len() > 0);
        assert(c.to_multiset().contains(list@[0]));
        let k = choose|k: int| 0 <= k < c.len() && c[k] == list@[0];
        assert(is_uigf_of(c[k], gacha_logs@[k], true));
        assert(converts(c, gacha_logs@, true));
    }
    let first = &list[0];
    let uid = match &first.uid {
        Some(u) => u.clone(),
        None => String::new(),
    };
    let lang = match &first.lang {
        Some(l) => l.clone(),
        None => String::new(),
    };
    let info = UIGFGachaLogInfo {
        uid,
        lang,
        export_time: String::from_str(export_time),
        export_timestamp: Some(export_timestamp),
        export_app: String::from_str(export_app),
        export_app_version: String::from_str(export_app_version),
        uigf_version: String::from_str(UIGF_VERSION),
    };
    Ok(UIGFGachaLog { info, list })
}

/// Adjacent order extends to every pair of a sorted sequence.
pub proof fn lemma_sorted_all_pairs(s: Seq<UIGFGachaLogEntry>, i: int, j: int)
    requires
        sorted_by_id(s),
        0 <= i <= j < s.len(),
    ensures
        lex_le(s[i].id@, s[j].id@),
    decreases j - i,
{
    if i == j {
        crate::text::lemma_lex_refl(s[i].id@);
    } else {
        lemma_sorted_all_pairs(s, i, j - 1);
        crate::text::lemma_lex_trans(s[i].id@, s[j - 1].id@, s[j].id@);
    }
}

/// Where the records have pairwise distinct ids, the sorted interchange
/// records come out strictly ascending by `id`.
pub proof fn lemma_strictly_ascending(r: Seq<UIGFGachaLogEntry>, c: Seq<UIGFGachaLogEntry>, logs: Seq<GachaLogEntry>)
    requires
        stable_sorted_of(r, c),
        converts(c, logs, true),
        forall|a: int, b: int| 0 <= a < b < logs.len() ==> (#[trigger] logs[a]).id@ != (#[trigger] logs[b]).id@,
    ensures
        forall|i: int, j: int|
            0 <= i < j < r.len() ==> lex_le((#[trigger] r[i]).id@, (#[trigger] r[j]).id@) && !lex_le(r[j].id@, r[i].id@),
{
    let perm = choose|perm: Seq<int>| is_stable_perm(perm, r, c);
    assert forall|i: int, j: int| 0 <= i < j < r.len() implies lex_le((#[trigger] r[i]).id@, (#[trigger] r[j]).id@)
        && !lex_le(r[j].id@, r[i].id@) by {
        lemma_sorted_all_pairs(r, i, j);
        let pi = perm[i];
        let pj = perm[j];
        assert(pi != pj);
        assert(is_uigf_of(c[pi], logs[pi], true));
        assert(is_uigf_of(c[pj], logs[pj], true));
        if pi < pj {
            assert(logs[pi].id@ != logs[pj].id@);
        } else {
            assert(logs[pj].id@ != logs[pi].id@);
        }
        if lex_le(r[j].id@, r[i].id@) {
            crate::text::lemma_lex_antisymmetric(r[i].id@, r[j].id@);
        }
    }
}

} // verus!
