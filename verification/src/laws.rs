//! Laws relating the parser and the renderer, proved once and for all:
//! rendering a well-formed document and re-parsing it restores the
//! document, and an entry is only ever read from a line that follows a
//! marker line.

use vstd::prelude::*;
use crate::document::{
    consumes, has_domain, marker, opt_line, scan_finish, scan_init, scan_seq, scan_step,
    spec_parse_document, spec_render, spec_render_entries, unique_domains, ScanState,
    WebsiteCollectionV,
};
use crate::entry::{
    good_domain, lemma_entry_line_roundtrip, spec_entry_line, spec_parse_entry, ParseError,
    WebsiteV,
};
use crate::ip::lemma_split_dots_whole;
use crate::text::{
    first_token, is_space, join_lines, lemma_join_of_lines, lemma_lines_append,
    lemma_lines_single, lemma_token_len_at, spec_lines, spec_trim, trim_start,
};

verus! {

/// The marker line itself never parses as an entry.
pub proof fn lemma_marker_not_entry()
    ensures
        spec_parse_entry(marker()) is Err,
{
    let m = marker();
    assert(m[0] == '#' && m[1] == '!' && m[2] == 'w' && m[3] == 'b');
    assert(!is_space(m[0]));
    assert(trim_start(m) == m);
    assert(forall|k: int| 0 <= k < 4 ==> !is_space(#[trigger] m[k]));
    lemma_token_len_at(m, 4);
    assert(first_token(m) =~= m);
    assert(forall|k: int| 0 <= k < 4 ==> #[trigger] m[k] != '.');
    lemma_split_dots_whole(m);
    assert(crate::ip::split_dots(m).len() == 1);
    assert(crate::ip::spec_parse_ipv4(m) is None);
}

/// Trimming the marker text leaves it unchanged.
pub proof fn lemma_trim_marker()
    ensures
        spec_trim(marker()) == marker(),
{
    let m = marker();
    assert(!is_space(m[0]));
    assert(trim_start(m) == m);
    assert(m.last() == 'b');
    assert(!is_space(m.last()));
}

/// The lines that rendering a sequence of blocked entries emits: for
/// each entry its marker line, then its entry line.
pub open spec fn pairs_lines(ws: Seq<WebsiteV>) -> Seq<Seq<char>>
    decreases ws.len(),
{
    if ws.len() == 0 {
        Seq::empty()
    } else {
        seq![marker(), spec_entry_line(ws[0])] + pairs_lines(ws.drop_first())
    }
}

/// Rendered entries split at their lines into marker/entry-line pairs.
pub proof fn lemma_render_entries_lines(ws: Seq<WebsiteV>)
    requires
        forall|i: int|
            0 <= i < ws.len() ==> good_domain(#[trigger] ws[i].domain) && ws[i].is_blocked,
    ensures
        spec_lines(spec_render_entries(ws)) == pairs_lines(ws),
    decreases ws.len(),
{
    if ws.len() == 0 {
        assert(spec_lines(spec_render_entries(ws)) =~= pairs_lines(ws));
    } else {
        let m = marker();
        let line0 = spec_entry_line(ws[0]);
        let a = m + seq!['\n'];
        let b = line0 + seq!['\n'];
        let rest = spec_render_entries(ws.drop_first());
        assert(forall|k: int| 0 <= k < 4 ==> #[trigger] m[k] != '\n');
        lemma_lines_single(m);
        lemma_entry_line_roundtrip(ws[0]);
        lemma_lines_single(line0);
        assert(a.last() == '\n');
        assert(b.last() == '\n');
        lemma_lines_append(b, rest);
        lemma_lines_append(a, b + rest);
        assert(forall|i: int| 0 <= i < ws.drop_first().len() ==> good_domain(
            #[trigger] ws.drop_first()[i].domain,
        ) && ws.drop_first()[i].is_blocked);
        lemma_render_entries_lines(ws.drop_first());
        assert(spec_render_entries(ws) =~= a + (b + rest));
        assert(spec_lines(spec_render_entries(ws)) == spec_lines(a) + (spec_lines(b)
            + spec_lines(rest)));
        assert(spec_lines(a) + (spec_lines(b) + pairs_lines(ws.drop_first())) =~= seq![m, line0]
            + pairs_lines(ws.drop_first()));
    }
}

/// No two adjacent lines form a consumable marker/entry pair.
pub open spec fn no_pairs(ls: Seq<Seq<char>>) -> bool {
    forall|i: int|
        1 <= i < ls.len() ==> !(spec_trim(ls[i - 1]) == marker() && spec_parse_entry(
            #[trigger] ls[i],
        ) is Ok)
}

/// Scanning lines with no consumable pair passes every line through in
/// order and collects nothing.
pub proof fn lemma_scan_passthrough(st: ScanState, ls: Seq<Seq<char>>)
    requires
        no_pairs(ls),
        st.pending is Some && ls.len() > 0 ==> !(spec_trim(st.pending->0) == marker()
            && spec_parse_entry(ls[0]) is Ok),
    ensures
        ls.len() == 0 ==> scan_seq(st, ls) == st,
        ls.len() > 0 ==> scan_seq(st, ls) == (ScanState {
            passthrough: st.passthrough + opt_line(st.pending) + ls.drop_last(),
            entries: st.entries,
            pending: Some(ls.last()),
        }),
    decreases ls.len(),
{
    if ls.len() == 0 {
    } else {
        assert(!consumes(st, ls[0]));
        let st1 = scan_step(st, ls[0]);
        let ls1 = ls.drop_first();
        assert forall|i: int|
            1 <= i < ls1.len() implies !(spec_trim(ls1[i - 1]) == marker() && spec_parse_entry(
            #[trigger] ls1[i],
        ) is Ok) by {
            assert(ls1[i] == ls[i + 1]);
            assert(ls1[i - 1] == ls[i]);
            assert(!(spec_trim(ls[i + 1 - 1]) == marker() && spec_parse_entry(
                ls[i + 1],
            ) is Ok));
        }
        if ls1.len() > 0 {
            assert(ls1[0] == ls[1]);
            assert(!(spec_trim(ls[0]) == marker() && spec_parse_entry(ls[1]) is Ok));
        }
        lemma_scan_passthrough(st1, ls1);
        assert(scan_seq(st, ls) == scan_seq(st1, ls1));
        if ls1.len() == 0 {
            assert(ls.drop_last() =~= Seq::<Seq<char>>::empty());
            assert(ls.last() == ls[0]);
            assert(scan_seq(st, ls) =~= (ScanState {
                passthrough: st.passthrough + opt_line(st.pending) + ls.drop_last(),
                entries: st.entries,
                pending: Some(ls.last()),
            }));
        } else {
            assert(opt_line(st1.pending) == seq![ls[0]]);
            assert(st1.passthrough + opt_line(st1.pending) + ls1.drop_last() =~= st.passthrough
                + opt_line(st.pending) + ls.drop_last());
            assert(ls1.last() == ls.last());
            assert(scan_seq(st, ls) =~= (ScanState {
                passthrough: st.passthrough + opt_line(st.pending) + ls.drop_last(),
                entries: st.entries,
                pending: Some(ls.last()),
            }));
        }
    }
}

/// Scanning the rendered marker/entry-line pairs of fresh, distinct,
/// well-formed entries appends exactly those entries.
pub proof fn lemma_scan_pairs(st: ScanState, ws: Seq<WebsiteV>)
    requires
        forall|i: int|
            0 <= i < ws.len() ==> good_domain(#[trigger] ws[i].domain) && ws[i].is_blocked,
        forall|i: int| 0 <= i < ws.len() ==> !has_domain(st.entries, #[trigger] ws[i].domain),
        forall|i: int, j: int| 0 <= i < j < ws.len() ==> ws[i].domain != ws[j].domain,
    ensures
        ws.len() == 0 ==> scan_seq(st, pairs_lines(ws)) == st,
        ws.len() > 0 ==> scan_seq(st, pairs_lines(ws)) == (ScanState {
            passthrough: st.passthrough + opt_line(st.pending),
            entries: st.entries + ws,
            pending: None,
        }),
    decreases ws.len(),
{
    if ws.len() == 0 {
        assert(pairs_lines(ws).len() == 0);
    } else {
        let ls = pairs_lines(ws);
        assert(ls[0] == marker());
        assert(ls[1] == spec_entry_line(ws[0]));
        lemma_marker_not_entry();
        assert(!consumes(st, ls[0]));
        let st1 = scan_step(st, ls[0]);
        lemma_entry_line_roundtrip(ws[0]);
        lemma_trim_marker();
        assert(st1.pending == Some(marker()));
        assert(spec_parse_entry(ls[1]) == Ok::<WebsiteV, ParseError>(ws[0]));
        assert(!has_domain(st1.entries, ws[0].domain));
        assert(consumes(st1, ls[1]));
        let st2 = scan_step(st1, ls[1]);
        assert(st2.entries == st.entries.push(ws[0]));
        assert(st2.passthrough == st.passthrough + opt_line(st.pending));
        assert(st2.pending is None);
        let wsr = ws.drop_first();
        assert(ls.drop_first()[0] == ls[1]);
        assert(ls.drop_first().drop_first() =~= pairs_lines(wsr));
        assert(scan_seq(st, ls) == scan_seq(st1, ls.drop_first()));
        assert(scan_seq(st1, ls.drop_first()) == scan_seq(st2, pairs_lines(wsr)));
        assert(forall|i: int|
            0 <= i < wsr.len() ==> good_domain(#[trigger] wsr[i].domain) && wsr[i].is_blocked);
        assert forall|i: int|
            0 <= i < wsr.len() implies !has_domain(st2.entries, #[trigger] wsr[i].domain) by {
            assert(wsr[i] == ws[i + 1]);
            assert(!has_domain(st.entries, ws[i + 1].domain));
            assert(ws[0].domain != ws[i + 1].domain);
            if has_domain(st2.entries, wsr[i].domain) {
                let k = choose|k: int|
                    0 <= k < st2.entries.len() && st2.entries[k].domain == wsr[i].domain;
                if k < st.entries.len() {
                    assert(st.entries[k].domain == wsr[i].domain);
                } else {
                    assert(st2.entries[k] == ws[0]);
                }
                assert(false);
            }
        }
        assert(forall|i: int, j: int|
            0 <= i < j < wsr.len() ==> #[trigger] wsr[i].domain != #[trigger] wsr[j].domain)
            by {
            assert(forall|i: int, j: int|
                0 <= i < j < wsr.len() ==> wsr[i] == ws[i + 1] && wsr[j] == ws[j + 1]);
        }
        lemma_scan_pairs(st2, wsr);
        if wsr.len() == 0 {
            assert(st.entries + ws =~= st.entries.push(ws[0]));
            assert(scan_seq(st, ls) =~= (ScanState {
                passthrough: st.passthrough + opt_line(st.pending),
                entries: st.entries + ws,
                pending: None,
            }));
        } else {
            assert(st2.passthrough + opt_line(st2.pending) =~= st2.passthrough);
            assert(st2.entries + wsr =~= st.entries + ws);
            assert(scan_seq(st, ls) =~= (ScanState {
                passthrough: st.passthrough + opt_line(st.pending),
                entries: st.entries + ws,
                pending: None,
            }));
        }
    }
}

/// A document the renderer can round-trip: domains unique and
/// whitespace-free, every entry blocked, the passthrough text empty or
/// line-break-terminated, and no consumable pair hiding in it.
pub open spec fn roundtrip_wf(d: WebsiteCollectionV) -> bool {
    &&& unique_domains(d.collection)
    &&& forall|i: int|
        0 <= i < d.collection.len() ==> good_domain(#[trigger] d.collection[i].domain)
            && d.collection[i].is_blocked
    &&& (d.metadata.len() == 0 || d.metadata.last() == '\n')
    &&& no_pairs(spec_lines(d.metadata))
}

/// Law: round-trip idempotence. Rendering a well-formed document and
/// parsing the result restores the document — the same entries, in the
/// same order, and the same passthrough text.
pub proof fn lemma_render_parse_roundtrip(d: WebsiteCollectionV)
    requires
        roundtrip_wf(d),
    ensures
        spec_parse_document(spec_render(d)) == d,
{
    let meta = d.metadata;
    let ws = d.collection;
    let mls = spec_lines(meta);
    let ptext = spec_render_entries(ws);
    lemma_render_entries_lines(ws);
    lemma_lines_append(meta, ptext);
    assert(spec_lines(spec_render(d)) == mls + pairs_lines(ws));
    crate::document::lemma_scan_seq_append(scan_init(), mls, pairs_lines(ws));
    lemma_scan_passthrough(scan_init(), mls);
    let stm = scan_seq(scan_init(), mls);
    assert forall|i: int| 0 <= i < ws.len() implies !has_domain(
        stm.entries,
        #[trigger] ws[i].domain,
    ) by {
        assert(stm.entries.len() == 0);
    }
    lemma_scan_pairs(stm, ws);
    let stf = scan_seq(scan_init(), mls + pairs_lines(ws));
    lemma_join_of_lines(meta);
    if ws.len() == 0 {
        if mls.len() == 0 {
            assert(scan_finish(stf).passthrough =~= Seq::<Seq<char>>::empty());
            assert(join_lines(scan_finish(stf).passthrough) =~= meta);
        } else {
            assert(scan_finish(stf).passthrough =~= mls.drop_last().push(mls.last()));
            assert(mls.drop_last().push(mls.last()) =~= mls);
        }
        assert(scan_finish(stf).entries =~= ws);
    } else {
        if mls.len() == 0 {
            assert(stf.passthrough =~= Seq::<Seq<char>>::empty());
            assert(join_lines(stf.passthrough) =~= meta);
        } else {
            assert(stf.passthrough =~= mls.drop_last().push(mls.last()));
            assert(mls.drop_last().push(mls.last()) =~= mls);
        }
        assert(stf.pending is None);
        assert(scan_finish(stf).passthrough =~= stf.passthrough);
        assert(stf.entries =~= ws);
    }
    assert(spec_parse_document(spec_render(d)) =~= d);
}

/// The entry can be read off some line of `ls`, either one whose
/// predecessor in `ls` trims to the marker, or the very first line with
/// the scan's undecided line trimming to the marker.
pub open spec fn entry_sourced(st: ScanState, ls: Seq<Seq<char>>, w: WebsiteV) -> bool {
    exists|i: int|
        #![auto]
        {
            &&& 0 <= i < ls.len()
            &&& spec_parse_entry(ls[i]) == Ok::<WebsiteV, ParseError>(w)
            &&& ((i >= 1 && spec_trim(ls[i - 1]) == marker()) || (i == 0 && st.pending is Some
                && spec_trim(st.pending->0) == marker()))
        }
}

/// The entry can be read off a line of `ls` at index one or later whose
/// immediate predecessor trims to the marker.
pub open spec fn entry_from_marked_line(ls: Seq<Seq<char>>, w: WebsiteV) -> bool {
    exists|i: int|
        #![auto]
        {
            &&& 1 <= i < ls.len()
            &&& spec_trim(ls[i - 1]) == marker()
            &&& spec_parse_entry(ls[i]) == Ok::<WebsiteV, ParseError>(w)
        }
}

/// Each entry a scan adds comes from a line that parses as that entry
/// and follows a marker line — the line before it in the scanned lines,
/// or the line already undecided when the scan began.
pub proof fn lemma_scan_entries_sources(st: ScanState, ls: Seq<Seq<char>>)
    ensures
        scan_seq(st, ls).entries.len() >= st.entries.len(),
        forall|k: int|
            0 <= k < st.entries.len() ==> #[trigger] scan_seq(st, ls).entries[k]
                == st.entries[k],
        forall|k: int|
            st.entries.len() <= k < scan_seq(st, ls).entries.len() ==> entry_sourced(
                st,
                ls,
                #[trigger] scan_seq(st, ls).entries[k],
            ),
    decreases ls.len(),
{
    if ls.len() == 0 {
    } else {
        let st1 = scan_step(st, ls[0]);
        let ls1 = ls.drop_first();
        lemma_scan_entries_sources(st1, ls1);
        assert(scan_seq(st, ls) == scan_seq(st1, ls1));
        let res = scan_seq(st, ls);
        if consumes(st, ls[0]) {
            let w = spec_parse_entry(ls[0])->Ok_0;
            assert(st1.entries == st.entries.push(w));
            assert(st1.entries.len() == st.entries.len() + 1);
            assert forall|k: int|
                st.entries.len() <= k < res.entries.len() implies entry_sourced(
                st,
                ls,
                res.entries[k],
            ) by {
                if k == st.entries.len() {
                    assert(res.entries[k] == st1.entries[k]);
                    assert(st1.entries[k] == w);
                    assert(0 < ls.len() && spec_parse_entry(ls[0]) == Ok::<
                        WebsiteV,
                        ParseError,
                    >(res.entries[k]) && st.pending is Some && spec_trim(st.pending->0)
                        == marker());
                } else {
                    assert(entry_sourced(st1, ls1, res.entries[k]));
                    let i0 = choose|i: int|
                        #![auto]
                        {
                            &&& 0 <= i < ls1.len()
                            &&& spec_parse_entry(ls1[i]) == Ok::<WebsiteV, ParseError>(
                                res.entries[k],
                            )
                            &&& ((i >= 1 && spec_trim(ls1[i - 1]) == marker()) || (i == 0
                                && st1.pending is Some && spec_trim(st1.pending->0)
                                == marker()))
                        };
                    assert(st1.pending is None);
                    assert(i0 >= 1);
                    assert(ls1[i0] == ls[i0 + 1]);
                    assert(ls1[i0 - 1] == ls[i0]);
                    assert(0 <= i0 + 1 < ls.len() && spec_parse_entry(ls[i0 + 1]) == Ok::<
                        WebsiteV,
                        ParseError,
                    >(res.entries[k]) && i0 + 1 >= 1 && spec_trim(ls[i0 + 1 - 1])
                        == marker());
                }
            }
        } else {
            assert(st1.entries == st.entries);
            assert(st1.pending == Some(ls[0]));
            assert forall|k: int|
                st.entries.len() <= k < res.entries.len() implies entry_sourced(
                st,
                ls,
                res.entries[k],
            ) by {
                assert(entry_sourced(st1, ls1, res.entries[k]));
                let i0 = choose|i: int|
                    #![auto]
                    {
                        &&& 0 <= i < ls1.len()
                        &&& spec_parse_entry(ls1[i]) == Ok::<WebsiteV, ParseError>(
                            res.entries[k],
                        )
                        &&& ((i >= 1 && spec_trim(ls1[i - 1]) == marker()) || (i == 0
                            && st1.pending is Some && spec_trim(st1.pending->0) == marker()))
                    };
                if i0 >= 1 {
                    assert(ls1[i0] == ls[i0 + 1]);
                    assert(ls1[i0 - 1] == ls[i0]);
                    assert(0 <= i0 + 1 < ls.len() && spec_parse_entry(ls[i0 + 1]) == Ok::<
                        WebsiteV,
                        ParseError,
                    >(res.entries[k]) && i0 + 1 >= 1 && spec_trim(ls[i0 + 1 - 1])
                        == marker());
                } else {
                    assert(ls1[0] == ls[1]);
                    assert(spec_trim(ls[0]) == marker());
                    assert(0 <= 1 < ls.len() && spec_parse_entry(ls[1]) == Ok::<
                        WebsiteV,
                        ParseError,
                    >(res.entries[k]) && 1 >= 1 && spec_trim(ls[1 - 1]) == marker());
                }
            }
        }
    }
}

/// Law: marker adjacency. Every entry of a parsed document comes from a
/// line at index one or later that parses as that entry and whose
/// immediate predecessor trims to the marker; in particular the first
/// line of the text never becomes an entry.
pub proof fn lemma_entries_follow_marker(t: Seq<char>)
    ensures
        forall|k: int|
            0 <= k < spec_parse_document(t).collection.len() ==> entry_from_marked_line(
                spec_lines(t),
                #[trigger] spec_parse_document(t).collection[k],
            ),
{
    let ls = spec_lines(t);
    lemma_scan_entries_sources(scan_init(), ls);
    let res = scan_seq(scan_init(), ls);
    assert(spec_parse_document(t).collection == res.entries);
    assert forall|k: int|
        0 <= k < spec_parse_document(t).collection.len() implies entry_from_marked_line(
        ls,
        spec_parse_document(t).collection[k],
    ) by {
        assert(entry_sourced(scan_init(), ls, res.entries[k]));
        let i0 = choose|i: int|
            #![auto]
            {
                &&& 0 <= i < ls.len()
                &&& spec_parse_entry(ls[i]) == Ok::<WebsiteV, ParseError>(res.entries[k])
                &&& ((i >= 1 && spec_trim(ls[i - 1]) == marker()) || (i == 0
                    && scan_init().pending is Some && spec_trim(scan_init().pending->0)
                    == marker()))
            };
        assert(scan_init().pending is None);
        assert(i0 >= 1);
        assert(1 <= i0 < ls.len() && spec_trim(ls[i0 - 1]) == marker() && spec_parse_entry(
            ls[i0],
        ) == Ok::<WebsiteV, ParseError>(spec_parse_document(t).collection[k]));
    }
}

} // verus!
