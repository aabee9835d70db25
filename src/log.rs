use vstd::prelude::*;
use vstd::string::StringExecFns;

verus! {

/// One wish record as the history endpoint returns it.
pub struct GachaLogEntry {
    pub uid: String,
    pub gacha_type: String,
    pub item_id: String,
    pub count: String,
    pub time: String,
    pub name: String,
    pub lang: String,
    pub item_type: String,
    pub rank_type: String,
    pub id: String,
}

/// The `data` part of one history page.
pub struct GachaLogData {
    pub page: String,
    pub size: String,
    pub total: String,
    pub list: Vec<GachaLogEntry>,
    pub region: String,
}

/// One response of the history endpoint.
pub struct GachaLog {
    pub retcode: i32,
    pub message: String,
    pub data: Option<GachaLogData>,
}

/// Entries asked for per page.
pub const PAGE_SIZE: u32 = 20;

/// Requests per burst: a pause comes before the first of each.
pub const BURST_LENGTH: u32 = 5;

/// Seconds of pause before each burst.
pub const BURST_PAUSE_SECS: u64 = 3;

/// Seconds of pause after each page that held entries.
pub const PAGE_PAUSE_SECS: u64 = 1;

/// The pagination of one category, between requests.
pub struct FetchState {
    /// The cursor: the `id` of the oldest entry received so far, `"0"` at first.
    pub end_id: String,
    /// Requests made so far.
    pub count: u32,
    /// The entries received, pages concatenated in server order.
    pub entries: Vec<GachaLogEntry>,
    /// Set once a response without entries has come.
    pub finished: bool,
}

/// What to do for the next request.
pub struct FetchRequest {
    /// Seconds to pause before the request.
    pub sleep_secs: u64,
    /// The 1-based number of the request, for progress reporting.
    pub request_no: u32,
    /// The `end_id` to send.
    pub end_id: String,
}

/// The pagination state as mathematical values.
pub struct FetchModel {
    pub end_id: Seq<char>,
    pub count: nat,
    pub entries: Seq<GachaLogEntry>,
    pub finished: bool,
}

impl FetchState {
    pub open spec fn model(&self) -> FetchModel {
        FetchModel { end_id: self.end_id@, count: self.count as nat, entries: self.entries@, finished: self.finished }
    }
}

pub open spec fn initial_model() -> FetchModel {
    FetchModel { end_id: seq!['0'], count: 0, entries: Seq::empty(), finished: false }
}

/// The entries a response carries; a response without data carries none.
pub open spec fn page_entries(data: Option<Seq<GachaLogEntry>>) -> Seq<GachaLogEntry> {
    match data {
        Some(l) => l,
        None => Seq::empty(),
    }
}

pub open spec fn data_view(data: Option<GachaLogData>) -> Option<Seq<GachaLogEntry>> {
    match data {
        Some(d) => Some(d.list@),
        None => None,
    }
}

/// Seconds paused before the request that follows `count` earlier ones.
pub open spec fn sleep_before(count: nat) -> nat {
    if count % 5 == 0 { 3 } else { 0 }
}

/// Seconds paused after a response.
pub open spec fn sleep_after(data: Option<Seq<GachaLogEntry>>) -> nat {
    if page_entries(data).len() > 0 { 1 } else { 0 }
}

/// The state after one response.
pub open spec fn step(m: FetchModel, data: Option<Seq<GachaLogEntry>>) -> FetchModel {
    let l = page_entries(data);
    if l.len() > 0 {
        FetchModel { end_id: l.last().id@, count: m.count + 1, entries: m.entries + l, finished: false }
    } else {
        FetchModel { end_id: m.end_id, count: m.count + 1, entries: m.entries, finished: true }
    }
}

/// The state after the remote has answered with `pages` in turn; answers that
/// come after the end are never asked for.
pub open spec fn run(m: FetchModel, pages: Seq<Option<Seq<GachaLogEntry>>>) -> FetchModel
    decreases pages.len(),
{
    if m.finished || pages.len() == 0 {
        m
    } else {
        run(step(m, pages[0]), pages.drop_first())
    }
}

/// Seconds paused over the same run.
pub open spec fn run_sleep(m: FetchModel, pages: Seq<Option<Seq<GachaLogEntry>>>) -> nat
    decreases pages.len(),
{
    if m.finished || pages.len() == 0 {
        0
    } else {
        sleep_before(m.count) + sleep_after(pages[0]) + run_sleep(step(m, pages[0]), pages.drop_first())
    }
}

/// Responses with entries among the first `n` of `pages`.
pub open spec fn nonempty_count(pages: Seq<Option<Seq<GachaLogEntry>>>, n: nat) -> nat
    decreases n,
{
    if n == 0 || n > pages.len() {
        0
    } else {
        nonempty_count(pages, (n - 1) as nat) + sleep_after(pages[n - 1])
    }
}

impl FetchState {
    /// The state before the first request of a category.
    pub fn new() -> (r: FetchState)
        ensures
            r.model() == initial_model(),
    {
        let end_id = String::from_str("0");
        proof {
            reveal_strlit("0");
            assert(end_id@ =~= seq!['0']);
        }
        FetchState { end_id, count: 0, entries: Vec::new(), finished: false }
    }

    /// The pause, number and cursor of the next request.
    pub fn next_request(&self) -> (r: FetchRequest)
        requires
            !self.finished,
            self.count < u32::MAX,
        ensures
            r.sleep_secs == sleep_before(self.count as nat),
            r.request_no == self.count + 1,
            r.end_id@ == self.end_id@,
    {
        let sleep_secs = if self.count % BURST_LENGTH == 0 { BURST_PAUSE_SECS } else { 0 };
        FetchRequest { sleep_secs, request_no: self.count + 1, end_id: self.end_id.clone() }
    }

    /// Takes the `data` of a response: a page with entries moves the cursor to
    /// its last entry and keeps them; anything else ends the category. Returns
    /// the seconds to pause before the next request.
    pub fn on_response(&mut self, data: Option<GachaLogData>) -> (r: u64)
        requires
            !old(self).finished,
            old(self).count < u32::MAX,
        ensures
            final(self).model() == step(old(self).model(), data_view(data)),
            r == sleep_after(data_view(data)),
    {
        self.count = self.count + 1;
        match data {
            Some(d) => {
                let mut list = d.list;
                let n = list.len();
                if n > 0 {
                    self.end_id = list[n - 1].id.clone();
                    let ghost before = self.entries@;
                    let ghost l = list@;
                    self.entries.append(&mut list);
                    assert(self.entries@ =~= before + l);
                    PAGE_PAUSE_SECS
                } else {
                    self.finished = true;
                    0
                }
            },
            None => {
                self.finished = true;
                0
            },
        }
    }
}

/// Why a category could not be fetched.
#[derive(Debug)]
pub enum FetchError {
    /// The remote answered with an error code and no data.
    RemoteRejected { retcode: i32, message: String },
}

impl FetchState {
    /// Takes a whole response: one with an error code and no data is a
    /// rejection and leaves the state as it was; any other goes on as its
    /// `data` says (an error code beside data counts as success). Returns the
    /// seconds to pause before the next request.
    pub fn on_log(&mut self, log: GachaLog) -> (r: Result<u64, FetchError>)
        requires
            !old(self).finished,
            old(self).count < u32::MAX,
        ensures
            log.retcode != 0 && log.data is None ==> {
                &&& r matches Err(FetchError::RemoteRejected { retcode, message }) && retcode == log.retcode
                    && message@ == log.message@
                &&& final(self).model() == old(self).model()
            },
            !(log.retcode != 0 && log.data is None) ==> {
                &&& r == Ok::<u64, FetchError>(sleep_after(data_view(log.data)) as u64)
                &&& final(self).model() == step(old(self).model(), data_view(log.data))
            },
    {
        if log.retcode != 0 && log.data.is_none() {
            return Err(FetchError::RemoteRejected { retcode: log.retcode, message: log.message });
        }
        Ok(self.on_response(log.data))
    }
}

/// The `end_id` of the request that follows a page with entries is the `id`
/// of the last entry of that page.
pub proof fn lemma_cursor_advances(m: FetchModel, page: Seq<GachaLogEntry>)
    requires
        !m.finished,
        page.len() > 0,
    ensures
        step(m, Some(page)).end_id == page.last().id@,
        !step(m, Some(page)).finished,
{
}

/// From any unfinished state, a remote that serves full pages and then an
/// empty or missing page is asked once per page, and every entry is kept.
pub proof fn lemma_run_full_pages(m: FetchModel, pages: Seq<Option<Seq<GachaLogEntry>>>)
    requires
        !m.finished,
        pages.len() >= 1,
        forall|i: int| 0 <= i < pages.len() - 1 ==> page_entries(#[trigger] pages[i]).len() == PAGE_SIZE,
        page_entries(pages.last()).len() == 0,
    ensures
        run(m, pages).finished,
        run(m, pages).count == m.count + pages.len(),
        run(m, pages).entries.len() == m.entries.len() + PAGE_SIZE * (pages.len() - 1),
    decreases pages.len(),
{
    if pages.len() > 1 {
        let rest = pages.drop_first();
        assert(page_entries(pages[0]).len() == PAGE_SIZE);
        assert forall|i: int| 0 <= i < rest.len() - 1 implies page_entries(#[trigger] rest[i]).len() == PAGE_SIZE by {
            assert(rest[i] == pages[i + 1]);
        }
        assert(rest.last() == pages.last());
        lemma_run_full_pages(step(m, pages[0]), rest);
    } else {
        let s = step(m, pages[0]);
        assert(pages[0] == pages.last());
        assert(run(s, pages.drop_first()) == s);
    }
}

/// A remote that serves `k` pages of twenty entries and then an empty page is
/// asked exactly `k + 1` times, and `20 * k` entries come back.
pub proof fn lemma_pagination_terminates(k: nat, pages: Seq<Option<Seq<GachaLogEntry>>>)
    requires
        pages.len() == k + 1,
        forall|i: int| 0 <= i < k ==> page_entries(#[trigger] pages[i]).len() == 20,
        page_entries(pages[k as int]).len() == 0,
    ensures
        run(initial_model(), pages).finished,
        run(initial_model(), pages).count == k + 1,
        run(initial_model(), pages).entries.len() == 20 * k,
{
    lemma_run_full_pages(initial_model(), pages);
}

/// Over a run that starts at request `m.count`, the pauses add up to three
/// seconds per request whose number before it is a multiple of five, and one
/// second per page with entries.
pub proof fn lemma_run_sleep(m: FetchModel, pages: Seq<Option<Seq<GachaLogEntry>>>)
    ensures
        run_sleep(m, pages) == 3 * ((run(m, pages).count + 4) / 5 - (m.count + 4) / 5)
            + nonempty_count(pages, (run(m, pages).count - m.count) as nat),
        run(m, pages).count >= m.count,
        run(m, pages).count - m.count <= pages.len(),
    decreases pages.len(),
{
    if !m.finished && pages.len() > 0 {
        let s = step(m, pages[0]);
        let rest = pages.drop_first();
        lemma_run_sleep(s, rest);
        let n = (run(s, rest).count - s.count) as nat;
        lemma_nonempty_shift(pages, n);
        assert(sleep_before(m.count) == 3 * ((m.count + 5) / 5 - (m.count + 4) / 5));
    }
}

/// Counting pages with entries over `pages` is the first page's share plus
/// the count over the rest.
proof fn lemma_nonempty_shift(pages: Seq<Option<Seq<GachaLogEntry>>>, n: nat)
    requires
        pages.len() > 0,
        n + 1 <= pages.len(),
    ensures
        nonempty_count(pages, n + 1) == sleep_after(pages[0]) + nonempty_count(pages.drop_first(), n),
    decreases n,
{
    let rest = pages.drop_first();
    if n > 0 {
        lemma_nonempty_shift(pages, (n - 1) as nat);
        assert(rest[n - 1] == pages[n as int]);
        assert(nonempty_count(rest, n) == nonempty_count(rest, (n - 1) as nat) + sleep_after(rest[n - 1]));
        assert(nonempty_count(pages, n + 1) == nonempty_count(pages, n) + sleep_after(pages[n as int]));
    } else {
        assert(nonempty_count(pages, 0) == 0);
        assert(nonempty_count(rest, 0) == 0);
        assert(nonempty_count(pages, 1) == nonempty_count(pages, 0) + sleep_after(pages[0]));
    }
}

/// Across the `n` requests of a run from the start, the pauses add up to
/// three seconds per burst of five and one second per page with entries, so
/// at least `3 * ceil(n / 5)` plus the pages with entries.
pub proof fn lemma_pacing(pages: Seq<Option<Seq<GachaLogEntry>>>)
    ensures
        ({
            let n = run(initial_model(), pages).count;
            run_sleep(initial_model(), pages) == 3 * ((n + 4) / 5) + nonempty_count(pages, n)
        }),
{
    lemma_run_sleep(initial_model(), pages);
}

} // verus!
