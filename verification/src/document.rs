//! The document model: opaque passthrough text plus the collection of
//! managed entries, with adding, removing, listing and rendering.

use vstd::prelude::*;
use crate::entry::{
    push_entry_line, spec_entry_line, spec_parse_entry, Website, WebsiteV,
};
use crate::text::{
    chars_to_string, extend_chars, join_lines, lemma_join_lines_snoc, lemma_line_break_at,
    push_str_chars, spec_lines, spec_trim, str_eq, str_to_chars, trim_range, vec_range,
};

verus! {

/// Why a collection operation was refused.
#[derive(Clone, Copy, PartialEq, Eq, Structural, Debug)]
pub enum CollectionError {
    /// `add` found an entry with the same domain.
    DuplicateDomain,
    /// `remove` found no entry with the domain.
    DomainNotFound,
}

/// The marker text: a line trimming to it tags the next line as a
/// managed entry.
pub open spec fn marker() -> Seq<char> {
    seq!['#', '!', 'w', 'b']
}

/// The mathematical values of the websites, in order.
pub open spec fn views_of(ws: Seq<Website>) -> Seq<WebsiteV> {
    ws.map_values(|w: Website| w@)
}

/// Whether some entry carries the domain.
pub open spec fn has_domain(ws: Seq<WebsiteV>, d: Seq<char>) -> bool {
    exists|i: int| 0 <= i < ws.len() && ws[i].domain == d
}

/// No two entries carry the same domain.
pub open spec fn unique_domains(ws: Seq<WebsiteV>) -> bool {
    forall|i: int, j: int| 0 <= i < j < ws.len() ==> ws[i].domain != ws[j].domain
}

/// The position of the first entry carrying the domain, or -1.
pub open spec fn first_domain_index(ws: Seq<WebsiteV>, d: Seq<char>) -> int
    decreases ws.len(),
{
    if ws.len() == 0 {
        -1
    } else if ws[0].domain == d {
        0
    } else {
        let r = first_domain_index(ws.drop_first(), d);
        if r < 0 {
            -1
        } else {
            1 + r
        }
    }
}

pub proof fn lemma_first_domain_index_at(ws: Seq<WebsiteV>, d: Seq<char>, i: int)
    requires
        0 <= i < ws.len(),
        ws[i].domain == d,
        forall|k: int| 0 <= k < i ==> ws[k].domain != d,
    ensures
        first_domain_index(ws, d) == i,
    decreases i,
{
    if i == 0 {
    } else {
        let t = ws.drop_first();
        assert(forall|k: int| 0 <= k < i - 1 ==> #[trigger] t[k].domain != d);
        assert(t[i - 1] == ws[i]);
        lemma_first_domain_index_at(t, d, i - 1);
    }
}

/// A hosts-style document: passthrough text, and the managed entries.
#[derive(Debug, PartialEq)]
pub struct WebsiteCollection {
    /// All text of the source that is not a managed entry, kept verbatim,
    /// every line terminated by a line break.
    pub metadata: String,
    /// The managed entries, in the order they were parsed or added.
    pub collection: Vec<Website>,
}

/// The mathematical value of a `WebsiteCollection`.
#[verifier::ext_equal]
pub struct WebsiteCollectionV {
    pub metadata: Seq<char>,
    pub collection: Seq<WebsiteV>,
}

impl View for WebsiteCollection {
    type V = WebsiteCollectionV;

    open spec fn view(&self) -> WebsiteCollectionV {
        WebsiteCollectionV { metadata: self.metadata@, collection: views_of(self.collection@) }
    }
}

/// Whether some website in the vector carries the domain.
pub fn contains_domain(ws: &Vec<Website>, d: &str) -> (r: bool)
    ensures
        r == has_domain(views_of(ws@), d@),
{
    let n = ws.len();
    let mut i: usize = 0;
    while i < n
        invariant
            i <= n,
            n == ws@.len(),
            forall|k: int| 0 <= k < i ==> views_of(ws@)[k].domain != d@,
        decreases n - i,
    {
        let w = &ws[i];
        if str_eq(w.domain.as_str(), d) {
            proof {
                assert(views_of(ws@)[i as int].domain == d@);
            }
            return true;
        }
        i += 1;
    }
    proof {
        assert(forall|k: int| 0 <= k < views_of(ws@).len() ==> views_of(ws@)[k].domain != d@);
    }
    false
}

/// The position of the first website carrying the domain.
fn find_domain_index(ws: &Vec<Website>, d: &str) -> (r: Option<usize>)
    ensures
        match r {
            Some(i) => {
                &&& i < ws@.len()
                &&& views_of(ws@)[i as int].domain == d@
                &&& first_domain_index(views_of(ws@), d@) == i
                &&& has_domain(views_of(ws@), d@)
            },
            None => !has_domain(views_of(ws@), d@),
        },
{
    let n = ws.len();
    let mut i: usize = 0;
    while i < n
        invariant
            i <= n,
            n == ws@.len(),
            forall|k: int| 0 <= k < i ==> views_of(ws@)[k].domain != d@,
        decreases n - i,
    {
        let w = &ws[i];
        if str_eq(w.domain.as_str(), d) {
            proof {
                assert(views_of(ws@)[i as int].domain == d@);
                lemma_first_domain_index_at(views_of(ws@), d@, i as int);
            }
            return Some(i);
        }
        i += 1;
    }
    proof {
        assert(forall|k: int| 0 <= k < views_of(ws@).len() ==> views_of(ws@)[k].domain != d@);
    }
    None
}

impl WebsiteCollection {
    /// Inserts the website unless its domain is already present; a
    /// duplicate domain is refused and the document is left unchanged.
    pub fn add(&mut self, website: Website) -> (r: Result<(), CollectionError>)
        ensures
            match r {
                Ok(_) => {
                    &&& !has_domain(old(self)@.collection, website@.domain)
                    &&& final(self)@.metadata == old(self)@.metadata
                    &&& final(self)@.collection == old(self)@.collection.push(website@)
                },
                Err(e) => {
                    &&& e == CollectionError::DuplicateDomain
                    &&& has_domain(old(self)@.collection, website@.domain)
                    &&& *final(self) == *old(self)
                },
            },
            unique_domains(old(self)@.collection) ==> unique_domains(final(self)@.collection),
    {
        if contains_domain(&self.collection, website.domain.as_str()) {
            return Err(CollectionError::DuplicateDomain);
        }
        let ghost before = views_of(self.collection@);
        self.collection.push(website);
        proof {
            assert(views_of(self.collection@) =~= before.push(website@));
            if unique_domains(before) {
                let after = before.push(website@);
                assert forall|i: int, j: int|
                    0 <= i < j < after.len() implies after[i].domain != after[j].domain by {
                    if j < before.len() {
                        assert(after[i] == before[i] && after[j] == before[j]);
                    } else {
                        assert(after[j] == website@);
                        assert(after[i] == before[i]);
                        assert(!has_domain(before, website@.domain));
                    }
                }
            }
        }
        Ok(())
    }

    /// Deletes the entry carrying the domain; an absent domain is
    /// refused and the document is left unchanged.
    pub fn remove(&mut self, domain_name: &str) -> (r: Result<(), CollectionError>)
        ensures
            match r {
                Ok(_) => {
                    &&& has_domain(old(self)@.collection, domain_name@)
                    &&& final(self)@.metadata == old(self)@.metadata
                    &&& final(self)@.collection == old(self)@.collection.remove(
                        first_domain_index(old(self)@.collection, domain_name@),
                    )
                },
                Err(e) => {
                    &&& e == CollectionError::DomainNotFound
                    &&& !has_domain(old(self)@.collection, domain_name@)
                    &&& *final(self) == *old(self)
                },
            },
            unique_domains(old(self)@.collection) ==> unique_domains(final(self)@.collection),
    {
        let idx = match find_domain_index(&self.collection, domain_name) {
            Some(i) => i,
            None => {
                return Err(CollectionError::DomainNotFound);
            },
        };
        let ghost before = views_of(self.collection@);
        self.collection.remove(idx);
        proof {
            assert(views_of(self.collection@) =~= before.remove(idx as int));
            if unique_domains(before) {
                let after = before.remove(idx as int);
                assert forall|i: int, j: int|
                    0 <= i < j < after.len() implies after[i].domain != after[j].domain by {
                    let i0: int = if i < idx { i } else { i + 1 };
                    let j0: int = if j < idx { j } else { j + 1 };
                    assert(after[i] == before[i0] && after[j] == before[j0]);
                }
            }
        }
        Ok(())
    }
}

/// The text the entries add to a rendering: for each blocked entry, a
/// marker line and its entry line.
pub open spec fn spec_render_entries(ws: Seq<WebsiteV>) -> Seq<char>
    decreases ws.len(),
{
    if ws.len() == 0 {
        Seq::empty()
    } else {
        (if ws[0].is_blocked {
            marker() + seq!['\n'] + spec_entry_line(ws[0]) + seq!['\n']
        } else {
            Seq::empty()
        }) + spec_render_entries(ws.drop_first())
    }
}

pub proof fn lemma_render_entries_snoc(ws: Seq<WebsiteV>, w: WebsiteV)
    ensures
        spec_render_entries(ws.push(w)) == spec_render_entries(ws) + (if w.is_blocked {
            marker() + seq!['\n'] + spec_entry_line(w) + seq!['\n']
        } else {
            Seq::<char>::empty()
        }),
    decreases ws.len(),
{
    let tail: Seq<char> = if w.is_blocked {
        marker() + seq!['\n'] + spec_entry_line(w) + seq!['\n']
    } else {
        Seq::empty()
    };
    if ws.len() == 0 {
        assert(ws.push(w)[0] == w);
        assert(ws.push(w).drop_first() =~= Seq::<WebsiteV>::empty());
        assert(spec_render_entries(ws.push(w)) == tail + spec_render_entries(
            Seq::<WebsiteV>::empty(),
        ));
        assert(tail + Seq::<char>::empty() =~= spec_render_entries(ws) + tail);
    } else {
        assert(ws.push(w)[0] == ws[0]);
        assert(ws.push(w).drop_first() =~= ws.drop_first().push(w));
        lemma_render_entries_snoc(ws.drop_first(), w);
        let head: Seq<char> = if ws[0].is_blocked {
            marker() + seq!['\n'] + spec_entry_line(ws[0]) + seq!['\n']
        } else {
            Seq::empty()
        };
        assert(spec_render_entries(ws.push(w)) == head + (spec_render_entries(ws.drop_first())
            + tail));
        assert(head + (spec_render_entries(ws.drop_first()) + tail) =~= (head
            + spec_render_entries(ws.drop_first())) + tail);
    }
}

/// The full rendering of a document: the passthrough text, then the
/// marker and entry line of every blocked entry.
pub open spec fn spec_render(d: WebsiteCollectionV) -> Seq<char> {
    d.metadata + spec_render_entries(d.collection)
}

/// The listing lines: one `<address> <domain>` line per entry.
pub open spec fn spec_list_lines(ws: Seq<WebsiteV>) -> Seq<char>
    decreases ws.len(),
{
    if ws.len() == 0 {
        Seq::empty()
    } else {
        spec_entry_line(ws[0]) + seq!['\n'] + spec_list_lines(ws.drop_first())
    }
}

pub proof fn lemma_list_lines_snoc(ws: Seq<WebsiteV>, w: WebsiteV)
    ensures
        spec_list_lines(ws.push(w)) == spec_list_lines(ws) + spec_entry_line(w) + seq!['\n'],
    decreases ws.len(),
{
    if ws.len() == 0 {
        assert(ws.push(w)[0] == w);
        assert(ws.push(w).drop_first() =~= Seq::<WebsiteV>::empty());
        assert(spec_list_lines(ws.push(w)) == spec_entry_line(w) + seq!['\n']
            + spec_list_lines(Seq::<WebsiteV>::empty()));
        assert(spec_entry_line(w) + seq!['\n'] + Seq::<char>::empty() =~= spec_list_lines(ws)
            + spec_entry_line(w) + seq!['\n']);
    } else {
        assert(ws.push(w)[0] == ws[0]);
        assert(ws.push(w).drop_first() =~= ws.drop_first().push(w));
        lemma_list_lines_snoc(ws.drop_first(), w);
        assert(spec_list_lines(ws.push(w)) == spec_entry_line(ws[0]) + seq!['\n'] + (
        spec_list_lines(ws.drop_first()) + spec_entry_line(w) + seq!['\n']));
        assert(spec_entry_line(ws[0]) + seq!['\n'] + (spec_list_lines(ws.drop_first())
            + spec_entry_line(w) + seq!['\n']) =~= spec_list_lines(ws) + spec_entry_line(w)
            + seq!['\n']);
    }
}

/// What listing a document prints: its entry lines, or the no-entries
/// message.
pub open spec fn spec_list_output(d: WebsiteCollectionV) -> Seq<char> {
    if d.collection.len() == 0 {
        "No Websites were found!\n"@
    } else {
        spec_list_lines(d.collection)
    }
}

/// The state of the scan that builds a document from its lines:
/// passthrough lines emitted so far, entries collected so far, and the
/// previous line, still undecided, if any.
#[verifier::ext_equal]
pub struct ScanState {
    pub passthrough: Seq<Seq<char>>,
    pub entries: Seq<WebsiteV>,
    pub pending: Option<Seq<char>>,
}

pub open spec fn scan_init() -> ScanState {
    ScanState { passthrough: Seq::empty(), entries: Seq::empty(), pending: None }
}

pub open spec fn opt_line(p: Option<Seq<char>>) -> Seq<Seq<char>> {
    match p {
        Some(x) => seq![x],
        None => Seq::empty(),
    }
}

/// Whether the next line completes a managed entry: the undecided line
/// trims to the marker, the next line parses, and its domain is new.
pub open spec fn consumes(st: ScanState, line: Seq<char>) -> bool {
    &&& st.pending is Some
    &&& spec_trim(st.pending->0) == marker()
    &&& spec_parse_entry(line) is Ok
    &&& !has_domain(st.entries, spec_parse_entry(line)->Ok_0.domain)
}

/// One step of the scan. Consuming takes the marker line and the entry
/// line out of the passthrough text; otherwise the undecided line is
/// passed through and the new line becomes undecided.
pub open spec fn scan_step(st: ScanState, line: Seq<char>) -> ScanState {
    if consumes(st, line) {
        ScanState {
            passthrough: st.passthrough,
            entries: st.entries.push(spec_parse_entry(line)->Ok_0),
            pending: None,
        }
    } else {
        ScanState {
            passthrough: st.passthrough + opt_line(st.pending),
            entries: st.entries,
            pending: Some(line),
        }
    }
}

pub open spec fn scan_seq(st: ScanState, ls: Seq<Seq<char>>) -> ScanState
    decreases ls.len(),
{
    if ls.len() == 0 {
        st
    } else {
        scan_seq(scan_step(st, ls[0]), ls.drop_first())
    }
}

/// Ends the scan: a line still undecided is passed through.
pub open spec fn scan_finish(st: ScanState) -> ScanState {
    ScanState {
        passthrough: st.passthrough + opt_line(st.pending),
        entries: st.entries,
        pending: None,
    }
}

pub open spec fn spec_scan(ls: Seq<Seq<char>>) -> ScanState {
    scan_finish(scan_seq(scan_init(), ls))
}

/// The document a raw text denotes. The first line is never an entry;
/// every entry line follows a line trimming to the marker; a marker
/// line whose next line does not parse, or whose domain was already
/// taken, stays passthrough together with that line.
pub open spec fn spec_parse_document(t: Seq<char>) -> WebsiteCollectionV {
    let st = spec_scan(spec_lines(t));
    WebsiteCollectionV { metadata: join_lines(st.passthrough), collection: st.entries }
}

pub proof fn lemma_scan_seq_snoc(st: ScanState, ls: Seq<Seq<char>>, l: Seq<char>)
    ensures
        scan_seq(st, ls.push(l)) == scan_step(scan_seq(st, ls), l),
    decreases ls.len(),
{
    if ls.len() == 0 {
        assert(ls.push(l)[0] == l);
        assert(ls.push(l).drop_first() =~= Seq::<Seq<char>>::empty());
        assert(scan_seq(scan_step(st, l), Seq::empty()) == scan_step(st, l));
    } else {
        assert(ls.push(l)[0] == ls[0]);
        assert(ls.push(l).drop_first() =~= ls.drop_first().push(l));
        lemma_scan_seq_snoc(scan_step(st, ls[0]), ls.drop_first(), l);
    }
}

pub proof fn lemma_scan_seq_append(st: ScanState, a: Seq<Seq<char>>, b: Seq<Seq<char>>)
    ensures
        scan_seq(st, a + b) == scan_seq(scan_seq(st, a), b),
    decreases a.len(),
{
    if a.len() == 0 {
        assert(a + b =~= b);
    } else {
        assert((a + b)[0] == a[0]);
        assert((a + b).drop_first() =~= a.drop_first() + b);
        lemma_scan_seq_append(scan_step(st, a[0]), a.drop_first(), b);
    }
}

/// Pushing an entry with a fresh domain keeps domains unique.
pub proof fn lemma_unique_push(ws: Seq<WebsiteV>, w: WebsiteV)
    requires
        unique_domains(ws),
        !has_domain(ws, w.domain),
    ensures
        unique_domains(ws.push(w)),
{
    let after = ws.push(w);
    assert forall|i: int, j: int|
        0 <= i < j < after.len() implies after[i].domain != after[j].domain by {
        if j < ws.len() {
            assert(after[i] == ws[i] && after[j] == ws[j]);
        } else {
            assert(after[j] == w);
            assert(after[i] == ws[i]);
        }
    }
}

/// The views of the lines, in order.
pub open spec fn lines_views(s: Seq<Vec<char>>) -> Seq<Seq<char>> {
    s.map_values(|l: Vec<char>| l@)
}

/// Splits the characters into their lines.
fn split_lines(chars: &Vec<char>) -> (r: Vec<Vec<char>>)
    ensures
        lines_views(r@) == spec_lines(chars@),
{
    let n = chars.len();
    let mut out: Vec<Vec<char>> = Vec::new();
    let mut start: usize = 0;
    let mut i: usize = 0;
    proof {
        assert(lines_views(out@) =~= Seq::<Seq<char>>::empty());
        assert(chars@.skip(0) =~= chars@);
        assert(lines_views(out@) + spec_lines(chars@) =~= spec_lines(chars@));
    }
    while i < n
        invariant
            start <= i <= n,
            n == chars@.len(),
            forall|k: int| start <= k < i ==> chars@[k] != '\n',
            lines_views(out@) + spec_lines(chars@.skip(start as int)) == spec_lines(chars@),
        decreases n - i,
    {
        if chars[i] == '\n' {
            let line = vec_range(chars, start, i);
            proof {
                let s0 = chars@.skip(start as int);
                assert forall|k: int| 0 <= k < i - start implies s0[k] != '\n' by {
                    assert(s0[k] == chars@[start + k]);
                }
                assert(s0[i - start] == chars@[i as int]);
                lemma_line_break_at(s0, i - start);
                assert(spec_lines(s0) == seq![s0.take(i - start)] + spec_lines(
                    s0.skip(i - start + 1),
                ));
                assert(s0.take(i - start) =~= line@);
                assert(s0.skip(i - start + 1) =~= chars@.skip(i + 1 as int));
                assert(lines_views(out@.push(line)) =~= lines_views(out@).push(line@));
                assert(lines_views(out@.push(line)) + spec_lines(chars@.skip(i + 1 as int))
                    =~= lines_views(out@) + spec_lines(s0));
            }
            out.push(line);
            start = i + 1;
        }
        i += 1;
    }
    if start < n {
        let line = vec_range(chars, start, n);
        proof {
            let s0 = chars@.skip(start as int);
            assert forall|k: int| 0 <= k < s0.len() implies s0[k] != '\n' by {
                assert(s0[k] == chars@[start + k]);
            }
            lemma_line_break_at(s0, s0.len() as int);
            assert(spec_lines(s0) == seq![s0]);
            assert(s0 =~= line@);
            assert(lines_views(out@.push(line)) =~= lines_views(out@).push(line@));
            assert(lines_views(out@.push(line)) =~= lines_views(out@) + spec_lines(s0));
        }
        out.push(line);
    } else {
        proof {
            assert(chars@.skip(start as int) =~= Seq::<char>::empty());
            assert(lines_views(out@) + spec_lines(Seq::<char>::empty()) =~= lines_views(out@));
        }
    }
    out
}

/// Whether the line trims to the marker.
fn is_marker_line(v: &Vec<char>) -> (r: bool)
    ensures
        r == (spec_trim(v@) == marker()),
{
    let (a, b) = trim_range(v);
    let ghost t = spec_trim(v@);
    if b - a != 4 {
        proof {
            assert(marker().len() == 4);
        }
        return false;
    }
    let r = v[a] == '#' && v[a + 1] == '!' && v[a + 2] == 'w' && v[a + 3] == 'b';
    proof {
        assert(t[0] == v@[a as int] && t[1] == v@[a + 1] && t[2] == v@[a + 2] && t[3] == v@[a
            + 3]);
        if r {
            assert(t =~= marker());
        } else {
            assert(t != marker());
        }
    }
    r
}

impl WebsiteCollection {
    /// Builds the document a raw text denotes, as `spec_parse_document`
    /// says; the entries it holds carry distinct domains.
    pub fn parse_document(text: &str) -> (r: WebsiteCollection)
        ensures
            r@ == spec_parse_document(text@),
            unique_domains(r@.collection),
    {
        let chars = str_to_chars(text);
        let lines = split_lines(&chars);
        let ghost lv = lines_views(lines@);
        let n = lines.len();
        let mut entries: Vec<Website> = Vec::new();
        let mut meta: Vec<char> = Vec::new();
        let mut pending: Option<usize> = None;
        let mut i: usize = 0;
        while i < n
            invariant
                i <= n,
                n == lines@.len(),
                lv == lines_views(lines@),
                views_of(entries@) == scan_seq(scan_init(), lv.take(i as int)).entries,
                meta@ == join_lines(scan_seq(scan_init(), lv.take(i as int)).passthrough),
                unique_domains(views_of(entries@)),
                match pending {
                    Some(pi) => {
                        &&& pi < lines@.len()
                        &&& scan_seq(scan_init(), lv.take(i as int)).pending == Some(
                            lines@[pi as int]@,
                        )
                    },
                    None => scan_seq(scan_init(), lv.take(i as int)).pending is None,
                },
            decreases n - i,
        {
            let ghost st = scan_seq(scan_init(), lv.take(i as int));
            proof {
                assert(lv[i as int] == lines@[i as int]@);
            }
            let mut consumed = false;
            if let Some(pi) = pending {
                if is_marker_line(&lines[pi]) {
                    match Website::parse_chars(&lines[i]) {
                        Ok(w) => {
                            if !contains_domain(&entries, w.domain.as_str()) {
                                proof {
                                    assert(consumes(st, lv[i as int]));
                                    assert(views_of(entries@.push(w)) =~= views_of(
                                        entries@,
                                    ).push(w@));
                                    lemma_unique_push(views_of(entries@), w@);
                                }
                                entries.push(w);
                                pending = None;
                                consumed = true;
                            }
                        },
                        Err(_) => {},
                    }
                }
            }
            if !consumed {
                proof {
                    assert(!consumes(st, lv[i as int]));
                }
                if let Some(pi) = pending {
                    let ghost pre = meta@;
                    extend_chars(&mut meta, &lines[pi]);
                    meta.push('\n');
                    proof {
                        lemma_join_lines_snoc(st.passthrough, lines@[pi as int]@);
                        assert(st.passthrough + opt_line(st.pending) =~= st.passthrough.push(
                            lines@[pi as int]@,
                        ));
                        assert(meta@ =~= join_lines(st.passthrough + opt_line(st.pending)));
                    }
                } else {
                    proof {
                        assert(st.passthrough + opt_line(st.pending) =~= st.passthrough);
                    }
                }
                pending = Some(i);
            }
            proof {
                lemma_scan_seq_snoc(scan_init(), lv.take(i as int), lv[i as int]);
                assert(lv.take(i as int).push(lv[i as int]) =~= lv.take(i + 1));
            }
            i += 1;
        }
        proof {
            assert(lv.take(n as int) =~= lv);
        }
        let ghost st = scan_seq(scan_init(), lv);
        if let Some(pi) = pending {
            extend_chars(&mut meta, &lines[pi]);
            meta.push('\n');
            proof {
                lemma_join_lines_snoc(st.passthrough, lines@[pi as int]@);
                assert(st.passthrough + opt_line(st.pending) =~= st.passthrough.push(
                    lines@[pi as int]@,
                ));
                assert(meta@ =~= join_lines(scan_finish(st).passthrough));
            }
        } else {
            proof {
                assert(st.passthrough + opt_line(st.pending) =~= st.passthrough);
            }
        }
        let metadata = chars_to_string(&meta, 0, meta.len());
        let r = WebsiteCollection { metadata, collection: entries };
        proof {
            assert(r@ =~= spec_parse_document(text@));
        }
        r
    }
}

impl WebsiteCollection {
    /// Renders the document back to file text, as `spec_render` says.
    pub fn render(&self) -> (r: String)
        ensures
            r@ == spec_render(self@),
    {
        let mut out: Vec<char> = Vec::new();
        push_str_chars(&mut out, self.metadata.as_str());
        let n = self.collection.len();
        let mut i: usize = 0;
        while i < n
            invariant
                i <= n,
                n == self.collection@.len(),
                out@ == self@.metadata + spec_render_entries(self@.collection.take(i as int)),
            decreases n - i,
        {
            let ghost pre = out@;
            let w = &self.collection[i];
            if w.is_blocked {
                out.push('#');
                out.push('!');
                out.push('w');
                out.push('b');
                out.push('\n');
                proof {
                    assert(out@ =~= pre + marker() + seq!['\n']);
                }
                push_entry_line(&mut out, w);
                out.push('\n');
                proof {
                    assert(out@ =~= pre + (marker() + seq!['\n'] + spec_entry_line(w@)
                        + seq!['\n']));
                }
            }
            proof {
                let ws = self@.collection;
                assert(ws.take(i as int).push(ws[i as int]) =~= ws.take(i + 1));
                lemma_render_entries_snoc(ws.take(i as int), ws[i as int]);
                assert(ws[i as int] == self.collection@[i as int]@);
                assert(out@ =~= self@.metadata + spec_render_entries(ws.take(i + 1)));
            }
            i += 1;
        }
        proof {
            assert(self@.collection.take(n as int) =~= self@.collection);
        }
        chars_to_string(&out, 0, out.len())
    }

    /// The text that listing the document prints, as `spec_list_output`
    /// says.
    pub fn list_output(&self) -> (r: String)
        ensures
            r@ == spec_list_output(self@),
    {
        let n = self.collection.len();
        if n == 0 {
            let mut v: Vec<char> = Vec::new();
            push_str_chars(&mut v, "No Websites were found!\n");
            return chars_to_string(&v, 0, v.len());
        }
        let mut out: Vec<char> = Vec::new();
        let mut i: usize = 0;
        while i < n
            invariant
                i <= n,
                n == self.collection@.len(),
                out@ == spec_list_lines(self@.collection.take(i as int)),
            decreases n - i,
        {
            let ghost pre = out@;
            let w = &self.collection[i];
            push_entry_line(&mut out, w);
            out.push('\n');
            proof {
                let ws = self@.collection;
                assert(ws.take(i as int).push(ws[i as int]) =~= ws.take(i + 1));
                lemma_list_lines_snoc(ws.take(i as int), ws[i as int]);
                assert(ws[i as int] == self.collection@[i as int]@);
                assert(out@ =~= spec_list_lines(ws.take(i + 1)));
            }
            i += 1;
        }
        proof {
            assert(self@.collection.take(n as int) =~= self@.collection);
        }
        chars_to_string(&out, 0, out.len())
    }
}

} // verus!
