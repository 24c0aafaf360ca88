//! Markdown report pages: one page per scenario and an index page.

use vstd::prelude::*;

use crate::text::{
    chars_of, decimal, lemma_line_end, lines, occurs_between, occurs_in, push_decimal, push_trimmed,
    strip_cr, trim_end,
};

verus! {

/// The text that opens a test function's definition: `fn <test_fn>(`.
pub open spec fn fn_header(test_fn: Seq<char>) -> Seq<char> {
    seq!['f', 'n', ' '] + test_fn + seq!['(']
}

/// Whether `k` is the first index of `ls` whose line holds `needle`.
pub open spec fn is_first_line_with(ls: Seq<Seq<char>>, needle: Seq<char>, k: int) -> bool {
    &&& 0 <= k < ls.len()
    &&& occurs_in(ls[k], needle)
    &&& forall|j: int| 0 <= j < k ==> !occurs_in(#[trigger] ls[j], needle)
}

/// The 1-based number of the first line of `source` that holds
/// `fn <test_fn>(`, if any line does.
pub open spec fn fn_line_of(source: Seq<char>, test_fn: Seq<char>) -> Option<nat> {
    let ls = lines(source);
    let needle = fn_header(test_fn);
    if exists|k: int| is_first_line_with(ls, needle, k) {
        Some((choose|k: int| is_first_line_with(ls, needle, k)) as nat + 1)
    } else {
        None
    }
}

/// The anchored line is the first line of the source that holds the text
/// `fn `, then the test function's name, then `(`: that line holds it, and
/// no line before it does.
pub proof fn law_fn_line_is_first_holding_line(source: Seq<char>, test_fn: Seq<char>, n: nat)
    requires
        fn_line_of(source, test_fn) == Some(n),
    ensures
        1 <= n <= lines(source).len(),
        exists|i: int|
            0 <= i && i + test_fn.len() + 4 <= lines(source)[n - 1].len() && #[trigger] lines(
                source,
            )[n - 1].subrange(i, i + test_fn.len() + 4) == seq!['f', 'n', ' '] + test_fn + seq!['('],
        forall|j: int, i: int|
            0 <= j < n - 1 && 0 <= i && i + test_fn.len() + 4 <= lines(source)[j].len()
                ==> #[trigger] lines(source)[j].subrange(i, i + test_fn.len() + 4) != seq![
                'f',
                'n',
                ' ',
            ] + test_fn + seq!['('],
{
    let ls = lines(source);
    let needle = seq!['f', 'n', ' '] + test_fn + seq!['('];
    assert(fn_header(test_fn) == needle);
    assert(needle.len() == test_fn.len() + 4);
    let k = choose|k: int| is_first_line_with(ls, fn_header(test_fn), k);
    assert(k == n - 1);
    let w = choose|w: int|
        0 <= w && w + needle.len() <= ls[k].len() && #[trigger] ls[k].subrange(w, w + needle.len())
            == needle;
    assert(ls[n - 1].subrange(w, w + test_fn.len() + 4) == needle);
    assert forall|j: int, i: int|
        0 <= j < n - 1 && 0 <= i && i + test_fn.len() + 4 <= ls[j].len() implies #[trigger] ls[j].subrange(
        i,
        i + test_fn.len() + 4,
    ) != needle by {
        assert(!occurs_in(ls[j], needle));
        if ls[j].subrange(i, i + test_fn.len() + 4) == needle {
            assert(ls[j].subrange(i, i + needle.len()) == needle);
        }
    }
}

/// When no line of the source holds the text `fn `, then the test
/// function's name, then `(`, there is no anchored line.
pub proof fn law_no_fn_line_when_no_line_holds_it(source: Seq<char>, test_fn: Seq<char>)
    requires
        fn_line_of(source, test_fn) is None,
    ensures
        forall|j: int, i: int|
            0 <= j < lines(source).len() && 0 <= i && i + test_fn.len() + 4 <= lines(source)[j].len()
                ==> #[trigger] lines(source)[j].subrange(i, i + test_fn.len() + 4) != seq![
                'f',
                'n',
                ' ',
            ] + test_fn + seq!['('],
{
    let ls = lines(source);
    let needle = seq!['f', 'n', ' '] + test_fn + seq!['('];
    assert(fn_header(test_fn) == needle);
    assert forall|j: int, i: int|
        0 <= j < ls.len() && 0 <= i && i + test_fn.len() + 4 <= ls[j].len() implies #[trigger] ls[j].subrange(
        i,
        i + test_fn.len() + 4,
    ) != needle by {
        if ls[j].subrange(i, i + test_fn.len() + 4) == needle {
            assert(ls[j].subrange(i, i + needle.len()) == needle);
            assert(occurs_in(ls[j], needle));
            lemma_first_holding_line_exists(ls, needle, j);
        }
    }
}

/// If some line holds `needle`, a first such line exists.
proof fn lemma_first_holding_line_exists(ls: Seq<Seq<char>>, needle: Seq<char>, j: int)
    requires
        0 <= j < ls.len(),
        occurs_in(ls[j], needle),
    ensures
        exists|k: int| is_first_line_with(ls, needle, k),
    decreases j,
{
    if forall|t: int| 0 <= t < j ==> !occurs_in(#[trigger] ls[t], needle) {
        assert(is_first_line_with(ls, needle, j));
    } else {
        let t = choose|t: int| 0 <= t < j && occurs_in(#[trigger] ls[t], needle);
        lemma_first_holding_line_exists(ls, needle, t);
    }
}

/// The 1-based number of the line of `source` on which `fn <test_fn>(`
/// first appears.
#[verifier::rlimit(30)]
pub fn fn_line(source: &str, test_fn: &str) -> (r: Option<usize>)
    ensures
        r is None <==> fn_line_of(source@, test_fn@) is None,
        r matches Some(n) ==> fn_line_of(source@, test_fn@) == Some(n as nat),
        r matches Some(n) ==> 1 <= n <= lines(source@).len(),
        r matches Some(n) ==> exists|i: int|
            0 <= i && i + test_fn@.len() + 4 <= lines(source@)[n - 1].len() && #[trigger] lines(
                source@,
            )[n - 1].subrange(i, i + test_fn@.len() + 4) == seq!['f', 'n', ' '] + test_fn@ + seq![
                '(',
            ],
        r matches Some(n) ==> forall|j: int, i: int|
            0 <= j < n - 1 && 0 <= i && i + test_fn@.len() + 4 <= lines(source@)[j].len()
                ==> #[trigger] lines(source@)[j].subrange(i, i + test_fn@.len() + 4) != seq![
                'f',
                'n',
                ' ',
            ] + test_fn@ + seq!['('],
        r is None ==> forall|j: int, i: int|
            0 <= j < lines(source@).len() && 0 <= i && i + test_fn@.len() + 4 <= lines(
                source@,
            )[j].len() ==> #[trigger] lines(source@)[j].subrange(i, i + test_fn@.len() + 4)
                != seq!['f', 'n', ' '] + test_fn@ + seq!['('],
{
    let text = chars_of(source);
    let name = chars_of(test_fn);
    let mut needle: Vec<char> = Vec::new();
    needle.push('f');
    needle.push('n');
    needle.push(' ');
    let mut t: usize = 0;
    while t < name.len()
        invariant
            t <= name.len(),
            needle@ == seq!['f', 'n', ' '] + name@.take(t as int),
        decreases name.len() - t,
    {
        needle.push(name[t]);
        t = t + 1;
        assert(needle@ =~= seq!['f', 'n', ' '] + name@.take(t as int));
    }
    needle.push('(');
    assert(name@.take(t as int) =~= name@);
    assert(needle@ =~= fn_header(test_fn@));
    let ghost all = lines(text@);
    let ghost mut done: Seq<Seq<char>> = seq![];
    let len: usize = text.len();
    let mut start: usize = 0;
    let mut line_no: usize = 0;
    assert(text@.skip(0) =~= text@);
    while start < len
        invariant
            start <= len,
            len == text@.len(),
            line_no == done.len(),
            line_no <= start,
            all == lines(text@),
            text@ == source@,
            all == done + lines(text@.skip(start as int)),
            needle@ == fn_header(test_fn@),
            forall|k: int| 0 <= k < done.len() ==> !occurs_in(#[trigger] done[k], needle@),
        decreases len - start,
    {
        let mut e: usize = start;
        while e < len && text[e] != '\n'
            invariant
                start <= e <= len,
                len == text@.len(),
                forall|j: int| start <= j < e ==> text@[j] != '\n',
            decreases len - e,
        {
            e = e + 1;
        }
        let ghost rest = text@.skip(start as int);
        proof {
            lemma_line_end(rest, e - start);
        }
        let cut: usize = if e < len && e > start && text[e - 1] == '\r' {
            e - 1
        } else {
            e
        };
        let ghost line = text@.subrange(start as int, cut as int);
        proof {
            if e < len {
                assert(rest.take(e - start) =~= text@.subrange(start as int, e as int));
                assert(line =~= strip_cr(rest.take(e - start)));
                assert(rest.skip(e - start + 1) =~= text@.skip(e + 1));
                assert(lines(rest) == seq![line] + lines(text@.skip(e + 1)));
            } else {
                assert(line =~= rest);
                assert(lines(rest) == seq![line]);
            }
        }
        if occurs_between(&text, start, cut, &needle) {
            proof {
                assert(all[line_no as int] == line);
                assert(is_first_line_with(all, needle@, line_no as int));
                let k = choose|k: int| is_first_line_with(all, needle@, k);
                assert(k == line_no) by {
                    if k < line_no {
                        assert(all[k] == done[k]);
                    }
                    if k > line_no {
                        assert(!occurs_in(all[line_no as int], needle@));
                    }
                }
                assert(line_no < all.len());
                assert(all == lines(source@));
                assert(fn_line_of(source@, test_fn@) == Some((line_no + 1) as nat));
                law_fn_line_is_first_holding_line(source@, test_fn@, (line_no + 1) as nat);
                let ls = lines(source@);
                let needle = seq!['f', 'n', ' '] + test_fn@ + seq!['('];
                let w = choose|i: int|
                    0 <= i && i + test_fn@.len() + 4 <= ls[line_no as int].len() && #[trigger] ls[line_no as int].subrange(
                        i,
                        i + test_fn@.len() + 4,
                    ) == needle;
                assert(ls[(line_no + 1) - 1].subrange(w, w + test_fn@.len() + 4) == needle);
            }
            return Some(line_no + 1);
        }
        proof {
            done = done.push(line);
            if e < len {
                assert(all =~= done + lines(text@.skip(e + 1)));
            } else {
                assert(text@.skip(len as int) =~= seq![]);
                assert(all =~= done + lines(text@.skip(len as int)));
            }
        }
        line_no = line_no + 1;
        start = if e < len {
            e + 1
        } else {
            len
        };
    }
    proof {
        assert(text@.skip(start as int) =~= seq![]);
        assert(all =~= done);
        if exists|k: int| is_first_line_with(all, needle@, k) {
            let k = choose|k: int| is_first_line_with(all, needle@, k);
            assert(!occurs_in(done[k], needle@));
        }
        law_no_fn_line_when_no_line_holds_it(source@, test_fn@);
    }
    None
}


/// `body`, without its trailing white space, in a Markdown code fence
/// tagged `lang`.
pub open spec fn fenced_text(lang: Seq<char>, body: Seq<char>) -> Seq<char> {
    "```"@ + lang + "\n"@ + trim_end(body) + "\n```\n"@
}

/// Wraps `body`, trimmed at its end, in a Markdown code fence for `lang`.
pub fn fenced(lang: &str, body: &str) -> (s: String)
    ensures
        s@ == fenced_text(lang@, body@),
{
    let mut s = String::new();
    s.append("```");
    s.append(lang);
    s.append("\n");
    push_trimmed(&mut s, body);
    s.append("\n```\n");
    assert(s@ =~= fenced_text(lang@, body@));
    s
}

/// The heading of the index page.
pub const INDEX_TITLE: &'static str = "# quasar-svm through TestSVM: an execution report\n\n";

/// The paragraph under the index page's heading.
pub const INDEX_INTRO: &'static str = "Each scenario runs an SPL program on Blueshift's quasar-svm engine through the \
     TestSVM quasar adapter, and renders what the engine witnessed: the structured \
     execution log, a plain sequence diagram, and the authority and ownership graphs. \
     Same report, a third engine.\n\n";

/// The header of the index table.
pub const INDEX_TABLE_HEAD: &'static str = "| Scenario | Outcome | Page |\n|---|---|---|\n";

/// One table row of the index: `(page, title, outcome)` links to `page`.
pub open spec fn index_row(entry: (String, String, String)) -> Seq<char> {
    "| "@ + entry.1@ + " | "@ + entry.2@ + " | ["@ + entry.0@ + "]("@ + entry.0@ + ") |\n"@
}

/// The rows of the index table, one per entry, in order.
pub open spec fn index_rows(entries: Seq<(String, String, String)>) -> Seq<char>
    decreases entries.len(),
{
    if entries.len() == 0 {
        seq![]
    } else {
        index_rows(entries.drop_last()) + index_row(entries.last())
    }
}

/// The whole index page.
pub open spec fn index_page(entries: Seq<(String, String, String)>) -> Seq<char> {
    INDEX_TITLE@ + INDEX_INTRO@ + INDEX_TABLE_HEAD@ + index_rows(entries)
}

/// The rows of consecutive entry lists are the rows of the first list, then
/// those of the second.
pub proof fn law_index_rows_concat(a: Seq<(String, String, String)>, b: Seq<(String, String, String)>)
    ensures
        index_rows(a + b) == index_rows(a) + index_rows(b),
    decreases b.len(),
{
    if b.len() == 0 {
        assert(a + b =~= a);
        assert(index_rows(b) =~= Seq::<char>::empty());
    } else {
        assert((a + b).drop_last() =~= a + b.drop_last());
        assert((a + b).last() == b.last());
        law_index_rows_concat(a, b.drop_last());
    }
}

/// A single entry `(page, title, outcome)` gives the single row
/// `| title | outcome | [page](page) |` and its newline.
pub proof fn law_index_single_row(e: (String, String, String))
    ensures
        index_rows(seq![e]) == "| "@ + e.1@ + " | "@ + e.2@ + " | ["@ + e.0@ + "]("@ + e.0@ + ") |\n"@,
{
    assert(seq![e].drop_last() =~= Seq::<(String, String, String)>::empty());
    assert(seq![e].last() == e);
    assert(index_rows(Seq::<(String, String, String)>::empty()) == Seq::<char>::empty());
    assert(index_rows(seq![e]) =~= "| "@ + e.1@ + " | "@ + e.2@ + " | ["@ + e.0@ + "]("@ + e.0@
        + ") |\n"@);
}

/// The index page has entry `i`'s row right after the table head and the
/// rows of the entries before it, and before the rows of the entries after
/// it: every entry has its row, in input order.
pub proof fn law_index_has_each_entry_row(entries: Seq<(String, String, String)>, i: int)
    requires
        0 <= i < entries.len(),
    ensures
        index_page(entries) == INDEX_TITLE@ + INDEX_INTRO@ + INDEX_TABLE_HEAD@ + index_rows(
            entries.take(i),
        ) + ("| "@ + entries[i].1@ + " | "@ + entries[i].2@ + " | ["@ + entries[i].0@ + "]("@
            + entries[i].0@ + ") |\n"@) + index_rows(entries.skip(i + 1)),
{
    let a = entries.take(i);
    let b = entries.skip(i + 1);
    assert(entries =~= a + seq![entries[i]] + b);
    law_index_rows_concat(a + seq![entries[i]], b);
    law_index_rows_concat(a, seq![entries[i]]);
    law_index_single_row(entries[i]);
    assert(index_page(entries) =~= INDEX_TITLE@ + INDEX_INTRO@ + INDEX_TABLE_HEAD@ + index_rows(a)
        + ("| "@ + entries[i].1@ + " | "@ + entries[i].2@ + " | ["@ + entries[i].0@ + "]("@
        + entries[i].0@ + ") |\n"@) + index_rows(b));
}

/// An index with no entries is the heading, the paragraph and the table
/// head alone.
pub proof fn law_empty_index(entries: Seq<(String, String, String)>)
    requires
        entries.len() == 0,
    ensures
        index_page(entries) == INDEX_TITLE@ + INDEX_INTRO@ + INDEX_TABLE_HEAD@,
{
    assert(index_page(entries) =~= INDEX_TITLE@ + INDEX_INTRO@ + INDEX_TABLE_HEAD@);
}

/// The index page: one row per scenario `(page, title, outcome)`, linking
/// to its page.
pub fn render_index(entries: &[(String, String, String)]) -> (md: String)
    ensures
        md@ == index_page(entries@),
{
    let mut md = String::new();
    md.append(INDEX_TITLE);
    md.append(INDEX_INTRO);
    md.append(INDEX_TABLE_HEAD);
    let mut i: usize = 0;
    assert(entries@.take(0) =~= seq![]);
    while i < entries.len()
        invariant
            i <= entries@.len(),
            md@ == INDEX_TITLE@ + INDEX_INTRO@ + INDEX_TABLE_HEAD@ + index_rows(
                entries@.take(i as int),
            ),
        decreases entries@.len() - i,
    {
        let entry = &entries[i];
        let ghost before = md@;
        md.append("| ");
        md.append(entry.1.as_str());
        md.append(" | ");
        md.append(entry.2.as_str());
        md.append(" | [");
        md.append(entry.0.as_str());
        md.append("](");
        md.append(entry.0.as_str());
        md.append(") |\n");
        proof {
            assert(entries@.take(i + 1).drop_last() =~= entries@.take(i as int));
            assert(md@ =~= before + index_row(entries@[i as int]));
        }
        i = i + 1;
    }
    assert(entries@.take(i as int) =~= entries@);
    md
}


/// What a scenario page shows of one executed transaction: its error, if it
/// failed, and the four renders of its trace.
pub struct TransactionRenders {
    /// The transaction's error, as text; `None` when it succeeded.
    pub error: Option<String>,
    /// The structured execution log (the CPI tree).
    pub cpi_tree: String,
    /// The plain sequence diagram (a Mermaid block).
    pub sequence_diagram: String,
    /// Who signed for what (a Mermaid block).
    pub authority_graph: String,
    /// Which program owns each written account (a Mermaid block).
    pub ownership_graph: String,
}

/// The sentence under the authority graph's heading.
pub const AUTHORITY_NOTE: &'static str = "Who signed for what; an `invoke_signed` PDA appears as its own authority.\n\n";

/// The sentence under the ownership graph's heading.
pub const OWNERSHIP_NOTE: &'static str = "Which program owns each account the transaction wrote.\n\n";

/// How the page words the outcome: `succeeded`, or `failed: `<error>``.
pub open spec fn outcome_text(error: Option<String>) -> Seq<char> {
    match error {
        None => "succeeded"@,
        Some(e) => "failed: `"@ + e@ + "`"@,
    }
}

/// The `#L<n>` anchor to the test function's line in `source`, or nothing
/// when the source is unknown or holds no `fn <test_fn>(`.
pub open spec fn anchor_text(source: Option<Seq<char>>, test_fn: Seq<char>) -> Seq<char> {
    match source {
        Some(src) => match fn_line_of(src, test_fn) {
            Some(n) => "#L"@ + decimal(n),
            None => seq![],
        },
        None => seq![],
    }
}

/// The head of a scenario page: title, intent, outcome and source link.
pub open spec fn scenario_head(
    title: Seq<char>,
    intent: Seq<char>,
    test_file: Seq<char>,
    test_fn: Seq<char>,
    outcome: Seq<char>,
    anchor: Seq<char>,
) -> Seq<char> {
    "# "@ + title + "\n\n"@ + "**Intent.** "@ + intent + "\n\n"@ + "**Outcome.** The transaction "@
        + outcome + ".\n\n"@ + "**Source.** [`"@ + test_file + "::"@ + test_fn + "`](../"@
        + test_file + anchor + ")\n\n"@
}

/// The body of a scenario page: the four renders under their headings.
pub open spec fn scenario_body(tx: TransactionRenders) -> Seq<char> {
    "## Structured execution log\n\n"@ + fenced_text(""@, tx.cpi_tree@)
        + "\n## Sequence diagram\n\n"@ + trim_end(tx.sequence_diagram@)
        + "\n\n## Authority graph\n\n"@ + AUTHORITY_NOTE@ + trim_end(tx.authority_graph@)
        + "\n\n## Ownership graph\n\n"@ + OWNERSHIP_NOTE@ + trim_end(tx.ownership_graph@) + "\n"@
}

/// A scenario's whole Markdown page.
pub open spec fn scenario_page(
    title: Seq<char>,
    intent: Seq<char>,
    test_file: Seq<char>,
    test_fn: Seq<char>,
    tx: TransactionRenders,
    source: Option<Seq<char>>,
) -> Seq<char> {
    scenario_head(
        title,
        intent,
        test_file,
        test_fn,
        outcome_text(tx.error),
        anchor_text(source, test_fn),
    ) + scenario_body(tx)
}

/// The text of a scenario page up to its source link's target file.
pub open spec fn page_up_to_link_target(
    title: Seq<char>,
    intent: Seq<char>,
    test_file: Seq<char>,
    test_fn: Seq<char>,
    tx: TransactionRenders,
) -> Seq<char> {
    "# "@ + title + "\n\n"@ + "**Intent.** "@ + intent + "\n\n"@ + "**Outcome.** The transaction "@
        + outcome_text(tx.error) + ".\n\n"@ + "**Source.** [`"@ + test_file + "::"@ + test_fn
        + "`](../"@ + test_file
}

/// When line `n` of the source is the first that holds `fn `, then the test
/// function's name, then `(`, the source link's target is the test file
/// followed by `#L` and the decimal of `n`, whatever `n` is.
pub proof fn law_source_link_anchors_first_defining_line(
    title: Seq<char>,
    intent: Seq<char>,
    test_file: Seq<char>,
    test_fn: Seq<char>,
    tx: TransactionRenders,
    src: Seq<char>,
    n: nat,
)
    requires
        1 <= n <= lines(src).len(),
        exists|i: int|
            0 <= i && i + test_fn.len() + 4 <= lines(src)[n - 1].len() && #[trigger] lines(
                src,
            )[n - 1].subrange(i, i + test_fn.len() + 4) == seq!['f', 'n', ' '] + test_fn + seq!['('],
        forall|j: int, i: int|
            0 <= j < n - 1 && 0 <= i && i + test_fn.len() + 4 <= lines(src)[j].len()
                ==> #[trigger] lines(src)[j].subrange(i, i + test_fn.len() + 4) != seq![
                'f',
                'n',
                ' ',
            ] + test_fn + seq!['('],
    ensures
        scenario_page(title, intent, test_file, test_fn, tx, Some(src)) == page_up_to_link_target(
            title,
            intent,
            test_file,
            test_fn,
            tx,
        ) + "#L"@ + decimal(n) + ")\n\n"@ + scenario_body(tx),
{
    let ls = lines(src);
    let needle = seq!['f', 'n', ' '] + test_fn + seq!['('];
    assert(fn_header(test_fn) == needle);
    let w = choose|i: int|
        0 <= i && i + test_fn.len() + 4 <= ls[n - 1].len() && #[trigger] ls[n - 1].subrange(
            i,
            i + test_fn.len() + 4,
        ) == needle;
    assert(ls[n - 1].subrange(w, w + needle.len()) == needle);
    assert forall|j: int| 0 <= j < n - 1 implies !occurs_in(#[trigger] ls[j], needle) by {
        if occurs_in(ls[j], needle) {
            let i = choose|i: int|
                0 <= i && i + needle.len() <= ls[j].len() && #[trigger] ls[j].subrange(
                    i,
                    i + needle.len(),
                ) == needle;
            assert(ls[j].subrange(i, i + test_fn.len() + 4) == needle);
        }
    }
    assert(is_first_line_with(ls, needle, n - 1));
    let k = choose|k: int| is_first_line_with(ls, fn_header(test_fn), k);
    assert(k == n - 1) by {
        if k < n - 1 {
            assert(!occurs_in(ls[k], needle));
        }
        if k > n - 1 {
            assert(!occurs_in(ls[n - 1], needle));
        }
    }
    assert(fn_line_of(src, test_fn) == Some(n));
    assert(scenario_page(title, intent, test_file, test_fn, tx, Some(src)) =~= page_up_to_link_target(
        title,
        intent,
        test_file,
        test_fn,
        tx,
    ) + "#L"@ + decimal(n) + ")\n\n"@ + scenario_body(tx));
}

/// When the source is unknown, or no line of it holds `fn `, then the test
/// function's name, then `(`, the source link's target is the bare test file.
pub proof fn law_source_link_bare_without_defining_line(
    title: Seq<char>,
    intent: Seq<char>,
    test_file: Seq<char>,
    test_fn: Seq<char>,
    tx: TransactionRenders,
    source: Option<Seq<char>>,
)
    requires
        source matches Some(src) ==> forall|j: int, i: int|
            0 <= j < lines(src).len() && 0 <= i && i + test_fn.len() + 4 <= lines(src)[j].len()
                ==> #[trigger] lines(src)[j].subrange(i, i + test_fn.len() + 4) != seq![
                'f',
                'n',
                ' ',
            ] + test_fn + seq!['('],
    ensures
        scenario_page(title, intent, test_file, test_fn, tx, source) == page_up_to_link_target(
            title,
            intent,
            test_file,
            test_fn,
            tx,
        ) + ")\n\n"@ + scenario_body(tx),
{
    if let Some(src) = source {
        let ls = lines(src);
        let needle = seq!['f', 'n', ' '] + test_fn + seq!['('];
        assert(fn_header(test_fn) == needle);
        if exists|k: int| is_first_line_with(ls, fn_header(test_fn), k) {
            let k = choose|k: int| is_first_line_with(ls, fn_header(test_fn), k);
            let i = choose|i: int|
                0 <= i && i + needle.len() <= ls[k].len() && #[trigger] ls[k].subrange(
                    i,
                    i + needle.len(),
                ) == needle;
            assert(ls[k].subrange(i, i + test_fn.len() + 4) == needle);
        }
        assert(fn_line_of(src, test_fn) is None);
    }
    assert(scenario_page(title, intent, test_file, test_fn, tx, source) =~= page_up_to_link_target(
        title,
        intent,
        test_file,
        test_fn,
        tx,
    ) + ")\n\n"@ + scenario_body(tx));
}

/// One scenario's Markdown page: intent, outcome, a link back to the test
/// (anchored at the line of `fn <test_fn>(` in `source`, the test file's
/// text, when it is given and holds one), then the four trace renders.
pub fn render_scenario(
    title: &str,
    intent: &str,
    test_file: &str,
    test_fn: &str,
    tx: &TransactionRenders,
    source: Option<&str>,
) -> (md: String)
    ensures
        md@ == scenario_page(
            title@,
            intent@,
            test_file@,
            test_fn@,
            *tx,
            match source {
                Some(s) => Some(s@),
                None => None,
            },
        ),
{
    let ghost src = match source {
        Some(s) => Some(s@),
        None => None::<Seq<char>>,
    };
    let mut md = String::new();
    md.append("# ");
    md.append(title);
    md.append("\n\n");
    md.append("**Intent.** ");
    md.append(intent);
    md.append("\n\n");
    md.append("**Outcome.** The transaction ");
    match &tx.error {
        None => {
            md.append("succeeded");
        },
        Some(e) => {
            md.append("failed: `");
            md.append(e.as_str());
            md.append("`");
        },
    }
    md.append(".\n\n");
    md.append("**Source.** [`");
    md.append(test_file);
    md.append("::");
    md.append(test_fn);
    md.append("`](../");
    md.append(test_file);
    let ghost before_anchor = md@;
    match source {
        Some(text) => match fn_line(text, test_fn) {
            Some(n) => {
                md.append("#L");
                push_decimal(&mut md, n as u64);
            },
            None => {},
        },
        None => {},
    }
    assert(md@ =~= before_anchor + anchor_text(src, test_fn@));
    md.append(")\n\n");
    let ghost head = md@;
    assert(head =~= scenario_head(
        title@,
        intent@,
        test_file@,
        test_fn@,
        outcome_text(tx.error),
        anchor_text(src, test_fn@),
    ));
    md.append("## Structured execution log\n\n");
    let log = fenced("", tx.cpi_tree.as_str());
    md.append(log.as_str());
    md.append("\n## Sequence diagram\n\n");
    push_trimmed(&mut md, tx.sequence_diagram.as_str());
    md.append("\n\n## Authority graph\n\n");
    md.append(AUTHORITY_NOTE);
    push_trimmed(&mut md, tx.authority_graph.as_str());
    md.append("\n\n## Ownership graph\n\n");
    md.append(OWNERSHIP_NOTE);
    push_trimmed(&mut md, tx.ownership_graph.as_str());
    md.append("\n");
    assert(md@ =~= head + scenario_body(*tx));
    md
}

} // verus!
