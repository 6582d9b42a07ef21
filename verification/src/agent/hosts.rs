use crate::common::net::{ip_address_text, ip_to_text};
use crate::common::resources::host::Parameters as HostParameters;
use crate::common::Action;
use crate::text::{chars_eq, chars_of, string_of, views};
use vstd::prelude::*;

verus! {

/// The characters that Unicode counts as white space, as `char::is_whitespace` does.
pub open spec fn is_space(c: char) -> bool {
    c == '\t' || c == '\n' || c == '\u{0B}' || c == '\u{0C}' || c == '\r' || c == ' ' || c == '\u{85}'
        || c == '\u{A0}' || c == '\u{1680}' || ('\u{2000}' <= c && c <= '\u{200A}') || c == '\u{2028}'
        || c == '\u{2029}' || c == '\u{202F}' || c == '\u{205F}' || c == '\u{3000}'
}

fn space(c: char) -> (r: bool)
    ensures
        r == is_space(c),
{
    c == '\t' || c == '\n' || c == '\u{0B}' || c == '\u{0C}' || c == '\r' || c == ' ' || c == '\u{85}'
        || c == '\u{A0}' || c == '\u{1680}' || ('\u{2000}' <= c && c <= '\u{200A}') || c == '\u{2028}'
        || c == '\u{2029}' || c == '\u{202F}' || c == '\u{205F}' || c == '\u{3000}'
}

/// A line without the carriage return that ends it, if any.
pub open spec fn strip_cr(l: Seq<char>) -> Seq<char> {
    if l.len() > 0 && l.last() == '\r' {
        l.drop_last()
    } else {
        l
    }
}

/// The lines ended so far and the line being read, after reading `s`.
pub open spec fn line_state(s: Seq<char>) -> (Seq<Seq<char>>, Seq<char>)
    decreases s.len(),
{
    if s.len() == 0 {
        (seq![], seq![])
    } else {
        let (ls, cur) = line_state(s.drop_last());
        if s.last() == '\n' {
            (ls.push(strip_cr(cur)), seq![])
        } else {
            (ls, cur.push(s.last()))
        }
    }
}

/// The lines of a text, as `str::lines` gives them: split at each `\n`,
/// a `\r` before it dropped, and no empty line after a final `\n`.
pub open spec fn lines_of(s: Seq<char>) -> Seq<Seq<char>> {
    let (ls, cur) = line_state(s);
    if cur.len() > 0 {
        ls.push(cur)
    } else {
        ls
    }
}

/// The words found so far and the word being read, after reading `s`.
pub open spec fn word_state(s: Seq<char>) -> (Seq<Seq<char>>, Seq<char>)
    decreases s.len(),
{
    if s.len() == 0 {
        (seq![], seq![])
    } else {
        let (ws, cur) = word_state(s.drop_last());
        if is_space(s.last()) {
            if cur.len() > 0 {
                (ws.push(cur), seq![])
            } else {
                (ws, seq![])
            }
        } else {
            (ws, cur.push(s.last()))
        }
    }
}

/// The words of a line, as `str::split_whitespace` gives them: the longest
/// runs of characters that are no white space.
pub open spec fn words_of(s: Seq<char>) -> Seq<Seq<char>> {
    let (ws, cur) = word_state(s);
    if cur.len() > 0 {
        ws.push(cur)
    } else {
        ws
    }
}

/// The texts joined with a tab between each two.
pub open spec fn join_tab(parts: Seq<Seq<char>>) -> Seq<char>
    decreases parts.len(),
{
    if parts.len() == 0 {
        seq![]
    } else if parts.len() == 1 {
        parts[0]
    } else {
        join_tab(parts.drop_last()) + seq!['\t'] + parts.last()
    }
}

/// Lines written out, each followed by `\n`.
pub open spec fn lines_text(ls: Seq<Seq<char>>) -> Seq<char>
    decreases ls.len(),
{
    if ls.len() == 0 {
        seq![]
    } else {
        lines_text(ls.drop_last()) + ls.last() + seq!['\n']
    }
}

/// Whether line `i` is an entry for the address of `entry`.
pub open spec fn entry_line(ls: Seq<Seq<char>>, entry: Seq<Seq<char>>, i: int) -> bool {
    words_of(ls[i]).len() > 0 && words_of(ls[i])[0] == entry[0]
}

/// The first line that is an entry for the address of `entry`, and whether
/// it is `entry` word for word.
pub open spec fn host_match(ls: Seq<Seq<char>>, entry: Seq<Seq<char>>) -> Option<(int, bool)> {
    if exists|i: int| 0 <= i < ls.len() && #[trigger] entry_line(ls, entry, i)
            && forall|j: int| 0 <= j < i ==> !#[trigger] entry_line(ls, entry, j) {
        let i = choose|i: int| 0 <= i < ls.len() && #[trigger] entry_line(ls, entry, i)
            && forall|j: int| 0 <= j < i ==> !#[trigger] entry_line(ls, entry, j);
        Some((i, words_of(ls[i]) == entry))
    } else {
        None
    }
}

/// A text with an entry added at its end, on a line of its own.
pub open spec fn appended(content: Seq<char>, entry: Seq<Seq<char>>) -> Seq<char> {
    let sep = if content.len() == 0 || content.last() != '\n' { seq!['\n'] } else { seq![] };
    content + sep + join_tab(entry) + seq!['\n']
}

/// What to do to a hosts file for an entry of `entry`, the address first:
/// when the entry is to be present, add it if no line is an entry for its
/// address, replace the first such line if it differs; when it is to be
/// absent, remove the first such line. Gives what was done and the new text
/// of the file, if it changes.
pub open spec fn hosts_plan(content: Seq<char>, entry: Seq<Seq<char>>, present: bool) -> (Action, Option<Seq<char>>) {
    let ls = lines_of(content);
    match host_match(ls, entry) {
        None => if present {
            (Action::Created, Some(appended(content, entry)))
        } else {
            (Action::Unchanged, None)
        },
        Some((i, full)) => if !present {
            (Action::Deleted, Some(lines_text(ls.remove(i))))
        } else if full {
            (Action::Unchanged, None)
        } else {
            (Action::Changed, Some(lines_text(ls.update(i, join_tab(entry)))))
        },
    }
}

proof fn lemma_host_match_first(ls: Seq<Seq<char>>, entry: Seq<Seq<char>>, i: int)
    requires
        0 <= i < ls.len(),
        entry_line(ls, entry, i),
        forall|j: int| 0 <= j < i ==> !#[trigger] entry_line(ls, entry, j),
    ensures
        host_match(ls, entry) == Some((i, words_of(ls[i]) == entry)),
{
    let k = choose|k: int| 0 <= k < ls.len() && #[trigger] entry_line(ls, entry, k)
        && forall|j: int| 0 <= j < k ==> !#[trigger] entry_line(ls, entry, j);
    assert(0 <= k < ls.len() && entry_line(ls, entry, k) && forall|j: int| 0 <= j < k ==> !#[trigger] entry_line(ls, entry, j));
    if k < i {
        assert(!entry_line(ls, entry, k));
    } else if k > i {
        assert(!entry_line(ls, entry, i));
    }
}

/// What is done to a hosts file for an entry, given its first line `i` for
/// the entry's address, if any: with no such line, an entry to be present
/// is added at the end (as a new line after the content) and one to be
/// absent leaves the file alone; otherwise an entry to be absent deletes
/// that line, and one to be present leaves the file alone when the line is
/// the entry word for word and else replaces that line by it. The file is
/// rewritten exactly when something is done.
pub proof fn lemma_hosts_plan(content: Seq<char>, entry: Seq<Seq<char>>, present: bool, i: int)
    ensures
        (hosts_plan(content, entry, present).0 == Action::Unchanged) <==> hosts_plan(content, entry, present).1 is None,
        (forall|j: int| 0 <= j < lines_of(content).len() ==> !#[trigger] entry_line(lines_of(content), entry, j)) ==> (
            (present ==> (hosts_plan(content, entry, present).0 == Action::Created
                && hosts_plan(content, entry, present).1 is Some
                && hosts_plan(content, entry, present).1->Some_0.take(content.len() as int) == content
                && hosts_plan(content, entry, present).1->Some_0.skip(
                    hosts_plan(content, entry, present).1->Some_0.len() - join_tab(entry).len() - 1)
                    == join_tab(entry) + seq!['\n']))
            && (!present ==> hosts_plan(content, entry, present) == (Action::Unchanged, None::<Seq<char>>))),
        0 <= i < lines_of(content).len() && entry_line(lines_of(content), entry, i)
            && (forall|j: int| 0 <= j < i ==> !#[trigger] entry_line(lines_of(content), entry, j)) ==> (
            (!present ==> hosts_plan(content, entry, present)
                == (Action::Deleted, Some(lines_text(lines_of(content).remove(i)))))
            && (present && words_of(lines_of(content)[i]) == entry
                ==> hosts_plan(content, entry, present) == (Action::Unchanged, None::<Seq<char>>))
            && (present && words_of(lines_of(content)[i]) != entry ==> hosts_plan(content, entry, present)
                == (Action::Changed, Some(lines_text(lines_of(content).update(i, join_tab(entry))))))),
{
    let ls = lines_of(content);
    if forall|j: int| 0 <= j < ls.len() ==> !#[trigger] entry_line(ls, entry, j) {
        assert(host_match(ls, entry) is None);
        if present {
            let sep = if content.len() == 0 || content.last() != '\n' { seq!['\n'] } else { seq![] };
            let t = appended(content, entry);
            assert(t == content + sep + join_tab(entry) + seq!['\n']);
            assert(t.take(content.len() as int) =~= content);
            assert(t.skip(t.len() - join_tab(entry).len() - 1) =~= join_tab(entry) + seq!['\n']);
        }
    }
    if 0 <= i < ls.len() && entry_line(ls, entry, i) && (forall|j: int| 0 <= j < i ==> !#[trigger] entry_line(ls, entry, j)) {
        lemma_host_match_first(ls, entry, i);
    }
}

/// The lines of a text.
pub fn lines(cs: &Vec<char>) -> (r: Vec<Vec<char>>)
    ensures
        views(r@) == lines_of(cs@),
{
    let mut ls: Vec<Vec<char>> = Vec::new();
    let mut cur: Vec<char> = Vec::new();
    let mut i: usize = 0;
    assert(cs@.take(0) =~= Seq::<char>::empty());
    while i < cs.len()
        invariant
            i <= cs.len(),
            (views(ls@), cur@) == line_state(cs@.take(i as int)),
        decreases cs.len() - i,
    {
        let c = cs[i];
        assert(cs@.take(i + 1).drop_last() =~= cs@.take(i as int));
        assert(cs@.take(i + 1).last() == c);
        if c == '\n' {
            if cur.len() > 0 && cur[cur.len() - 1] == '\r' {
                cur.pop();
            }
            ls.push(cur);
            cur = Vec::new();
            assert(views(ls@) =~= line_state(cs@.take(i + 1)).0);
            assert(cur@ =~= line_state(cs@.take(i + 1)).1);
        } else {
            cur.push(c);
        }
        i = i + 1;
    }
    assert(cs@.take(cs.len() as int) =~= cs@);
    if cur.len() > 0 {
        ls.push(cur);
        assert(views(ls@) =~= lines_of(cs@));
    }
    ls
}

/// The words of a line.
pub fn words(cs: &Vec<char>) -> (r: Vec<Vec<char>>)
    ensures
        views(r@) == words_of(cs@),
{
    let mut ws: Vec<Vec<char>> = Vec::new();
    let mut cur: Vec<char> = Vec::new();
    let mut i: usize = 0;
    assert(cs@.take(0) =~= Seq::<char>::empty());
    while i < cs.len()
        invariant
            i <= cs.len(),
            (views(ws@), cur@) == word_state(cs@.take(i as int)),
        decreases cs.len() - i,
    {
        let c = cs[i];
        assert(cs@.take(i + 1).drop_last() =~= cs@.take(i as int));
        assert(cs@.take(i + 1).last() == c);
        if space(c) {
            if cur.len() > 0 {
                ws.push(cur);
                assert(views(ws@) =~= word_state(cs@.take(i + 1)).0);
            }
            cur = Vec::new();
            assert(cur@ =~= word_state(cs@.take(i + 1)).1);
        } else {
            cur.push(c);
        }
        i = i + 1;
    }
    assert(cs@.take(cs.len() as int) =~= cs@);
    if cur.len() > 0 {
        ws.push(cur);
        assert(views(ws@) =~= words_of(cs@));
    }
    ws
}

/// The texts joined with a tab between each two.
fn joined_tab(parts: &Vec<Vec<char>>) -> (r: Vec<char>)
    ensures
        r@ == join_tab(views(parts@)),
{
    let mut out: Vec<char> = Vec::new();
    let mut i: usize = 0;
    while i < parts.len()
        invariant
            i <= parts.len(),
            out@ == join_tab(views(parts@).take(i as int)),
        decreases parts.len() - i,
    {
        let ghost before = out@;
        assert(views(parts@).take(i + 1).drop_last() =~= views(parts@).take(i as int));
        if i > 0 {
            out.push('\t');
        }
        let mut k: usize = 0;
        let ghost mid = out@;
        while k < parts[i].len()
            invariant
                k <= parts@[i as int]@.len(),
                i < parts@.len(),
                out@ == mid + parts@[i as int]@.take(k as int),
            decreases parts@[i as int]@.len() - k,
        {
            out.push(parts[i][k]);
            assert(out@ =~= mid + parts@[i as int]@.take(k + 1));
            k = k + 1;
        }
        assert(parts@[i as int]@.take(k as int) =~= parts@[i as int]@);
        if i == 0 {
            assert(views(parts@).take(1) =~= seq![parts@[0]@]);
            assert(out@ =~= join_tab(views(parts@).take(1)));
        } else {
            assert(out@ =~= before + seq!['\t'] + views(parts@)[i as int]);
        }
        i = i + 1;
    }
    assert(views(parts@).take(parts@.len() as int) =~= views(parts@));
    out
}

/// Lines written out, each followed by `\n`.
fn write_lines(ls: &Vec<Vec<char>>) -> (r: Vec<char>)
    ensures
        r@ == lines_text(views(ls@)),
{
    let mut out: Vec<char> = Vec::new();
    let mut i: usize = 0;
    while i < ls.len()
        invariant
            i <= ls.len(),
            out@ == lines_text(views(ls@).take(i as int)),
        decreases ls.len() - i,
    {
        assert(views(ls@).take(i + 1).drop_last() =~= views(ls@).take(i as int));
        let ghost mid = out@;
        let mut k: usize = 0;
        while k < ls[i].len()
            invariant
                k <= ls@[i as int]@.len(),
                i < ls@.len(),
                out@ == mid + ls@[i as int]@.take(k as int),
            decreases ls@[i as int]@.len() - k,
        {
            out.push(ls[i][k]);
            assert(out@ =~= mid + ls@[i as int]@.take(k + 1));
            k = k + 1;
        }
        out.push('\n');
        assert(ls@[i as int]@.take(k as int) =~= ls@[i as int]@);
        assert(out@ =~= mid + views(ls@)[i as int] + seq!['\n']);
        i = i + 1;
    }
    assert(views(ls@).take(ls@.len() as int) =~= views(ls@));
    out
}

/// The words of an entry of a hosts file for a host: its address, its
/// hostname and its aliases.
pub fn host_entry(p: &HostParameters) -> (r: Vec<String>)
    ensures
        r@.len() == p.aliases@.len() + 2,
        r@[0]@ == ip_to_text(p.ip_address),
        r@[1]@ == p.hostname@,
        forall|i: int| 0 <= i < p.aliases@.len() ==> (#[trigger] r@[i + 2])@ == p.aliases@[i]@,
{
    let mut v: Vec<String> = Vec::new();
    v.push(ip_address_text(&p.ip_address));
    v.push(p.hostname.as_str().to_owned());
    let mut i: usize = 0;
    while i < p.aliases.len()
        invariant
            i <= p.aliases@.len(),
            v@.len() == i + 2,
            v@[0]@ == ip_to_text(p.ip_address),
            v@[1]@ == p.hostname@,
            forall|j: int| 0 <= j < i ==> (#[trigger] v@[j + 2])@ == p.aliases@[j]@,
        decreases p.aliases.len() - i,
    {
        v.push(p.aliases[i].as_str().to_owned());
        i = i + 1;
    }
    v
}

/// The view of the words of an entry.
pub open spec fn entry_view(entry: Seq<String>) -> Seq<Seq<char>> {
    entry.map_values(|s: String| s@)
}

/// The characters of the words of an entry.
fn entry_chars(entry: &Vec<String>) -> (r: Vec<Vec<char>>)
    ensures
        views(r@) == entry_view(entry@),
{
    let mut ev: Vec<Vec<char>> = Vec::new();
    let mut k: usize = 0;
    while k < entry.len()
        invariant
            k <= entry@.len(),
            ev@.len() == k,
            views(ev@) == entry_view(entry@).take(k as int),
        decreases entry.len() - k,
    {
        let ghost before = ev@;
        let w = chars_of(entry[k].as_str());
        assert(w@ == entry@[k as int]@);
        ev.push(w);
        assert(entry_view(entry@)[k as int] == entry@[k as int]@);
        assert(ev@ == before.push(w));
        assert(views(ev@)[k as int] == w@);
        assert(views(ev@) =~= entry_view(entry@).take(k + 1));
        k = k + 1;
    }
    assert(entry_view(entry@).take(entry@.len() as int) =~= entry_view(entry@));
    ev
}

/// Whether two lists of words are the same.
fn same_words(a: &Vec<Vec<char>>, b: &Vec<Vec<char>>) -> (r: bool)
    ensures
        r == (views(a@) == views(b@)),
{
    if a.len() != b.len() {
        assert(views(a@).len() != views(b@).len());
        return false;
    }
    let mut q: usize = 0;
    while q < a.len()
        invariant
            q <= a@.len(),
            a@.len() == b@.len(),
            forall|t: int| 0 <= t < q ==> a@[t]@ == b@[t]@,
        decreases a.len() - q,
    {
        if !chars_eq(&a[q], &b[q]) {
            assert(views(a@)[q as int] != views(b@)[q as int]);
            return false;
        }
        q = q + 1;
    }
    assert(views(a@) =~= views(b@));
    true
}

/// The first line that is an entry for the address of `ev`, and whether
/// it is that entry word for word.
fn find_entry(ls: &Vec<Vec<char>>, ev: &Vec<Vec<char>>) -> (r: Option<(usize, bool)>)
    requires
        ev@.len() >= 1,
    ensures
        match host_match(views(ls@), views(ev@)) {
            Some((i, full)) => r == Some((i as usize, full)),
            None => r is None,
        },
{
    let ghost lv = views(ls@);
    let ghost ent = views(ev@);
    let mut i: usize = 0;
    while i < ls.len()
        invariant
            i <= ls@.len(),
            lv == views(ls@),
            ent == views(ev@),
            ent.len() >= 1,
            forall|j: int| 0 <= j < i ==> !#[trigger] entry_line(lv, ent, j),
        decreases ls.len() - i,
    {
        let ws = words(&ls[i]);
        assert(lv[i as int] == ls@[i as int]@);
        if ws.len() > 0 && chars_eq(&ws[0], &ev[0]) {
            assert(views(ws@)[0] == ws@[0]@);
            assert(entry_line(lv, ent, i as int));
            let same = same_words(&ws, ev);
            proof {
                let w = choose|w: int| 0 <= w < lv.len() && #[trigger] entry_line(lv, ent, w)
                    && forall|j: int| 0 <= j < w ==> !#[trigger] entry_line(lv, ent, j);
                assert(w == i) by {
                    if w < i {
                        assert(!entry_line(lv, ent, w));
                    } else if w > i {
                        assert(!entry_line(lv, ent, i as int));
                    }
                }
            }
            return Some((i, same));
        }
        proof {
            if entry_line(lv, ent, i as int) {
                assert(views(ws@)[0] == ws@[0]@);
            }
        }
        i = i + 1;
    }
    assert(host_match(lv, ent) is None) by {
        if exists|w: int| 0 <= w < lv.len() && #[trigger] entry_line(lv, ent, w) {
            let w = choose|w: int| 0 <= w < lv.len() && #[trigger] entry_line(lv, ent, w);
            assert(!entry_line(lv, ent, w));
        }
    }
    None
}

/// A text with an entry added at its end, on a line of its own.
fn append_entry(cs: &Vec<char>, ev: &Vec<Vec<char>>) -> (r: Vec<char>)
    ensures
        r@ == appended(cs@, views(ev@)),
{
    let mut out = cs.clone();
    assert(out@ == cs@);
    if cs.len() == 0 || cs[cs.len() - 1] != '\n' {
        out.push('\n');
    }
    let line = joined_tab(ev);
    let mut t: usize = 0;
    let ghost mid = out@;
    while t < line.len()
        invariant
            t <= line@.len(),
            out@ == mid + line@.take(t as int),
        decreases line.len() - t,
    {
        out.push(line[t]);
        assert(out@ =~= mid + line@.take(t + 1));
        t = t + 1;
    }
    out.push('\n');
    assert(line@.take(t as int) =~= line@);
    assert(out@ =~= appended(cs@, views(ev@)));
    out
}

/// Decides what to do to a hosts file for an entry, the address first, and
/// gives the new text of the file when it changes.
pub fn plan_hosts(content: &str, entry: &Vec<String>, present: bool) -> (r: (Action, Option<String>))
    requires
        entry@.len() >= 1,
    ensures
        r.0 == hosts_plan(content@, entry_view(entry@), present).0,
        match hosts_plan(content@, entry_view(entry@), present).1 {
            Some(t) => r.1 matches Some(s) && s@ == t,
            None => r.1 is None,
        },
{
    let cs = chars_of(content);
    let ls = lines(&cs);
    let ev = entry_chars(entry);
    let ghost lv = views(ls@);
    match find_entry(&ls, &ev) {
        None => {
            if present {
                let out = append_entry(&cs, &ev);
                (Action::Created, Some(string_of(&out)))
            } else {
                (Action::Unchanged, None)
            }
        },
        Some((idx, full)) => {
            if !present {
                let mut rest = ls;
                rest.remove(idx);
                assert(views(rest@) =~= lv.remove(idx as int));
                let out = write_lines(&rest);
                (Action::Deleted, Some(string_of(&out)))
            } else if full {
                (Action::Unchanged, None)
            } else {
                let mut rest = ls;
                let line = joined_tab(&ev);
                rest.set(idx, line);
                assert(views(rest@) =~= lv.update(idx as int, join_tab(views(ev@))));
                let out = write_lines(&rest);
                (Action::Changed, Some(string_of(&out)))
            }
        },
    }
}

} // verus!
