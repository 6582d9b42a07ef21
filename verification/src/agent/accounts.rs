use crate::agent::hosts::{lines, lines_of, words, words_of};
use crate::common::path::{is_absolute, is_safe_path, SafePathBuf};
use crate::common::resources::user::{password_check, Password};
use crate::server::config::{lemma_text_lt_irreflexive, lemma_text_lt_total, lemma_text_lt_trans, text_less, text_lt};
use crate::parse::{int_error_message, int_error_string, parse_int, parse_integer};
use crate::text::{concat2, chars_eq, find_first, first_index_of, split, split_chars, string_of, views};
use vstd::prelude::*;

verus! {

/// The date of the proleptic Gregorian calendar `days` days after
/// 1970-01-01, as (year, month, day), years counted astronomically.
#[verifier::opaque]
pub open spec fn civil_from_days(days: int) -> (int, int, int) {
    let z = days + 719468;
    let era = z / 146097;
    let doe = z - era * 146097;
    let yoe = (doe - doe / 1460 + doe / 36524 - doe / 146096) / 365;
    let doy = doe - (365 * yoe + yoe / 4 - yoe / 100);
    let mp = (5 * doy + 2) / 153;
    let d = doy - (153 * mp + 2) / 5 + 1;
    let m = if mp < 10 { mp + 3 } else { mp - 9 };
    (yoe + era * 400 + if m <= 2 { 1int } else { 0int }, m, d)
}

/// The date `days` days after 1970-01-01, or none where its year lies
/// outside -9999 to 9999, the years that `time::Date` holds.
pub open spec fn date_after_epoch(days: int) -> Option<(i32, u8, u8)> {
    let c = civil_from_days(days);
    if -9999 <= c.0 <= 9999 {
        Some((c.0 as i32, c.1 as u8, c.2 as u8))
    } else {
        None
    }
}

/// The most days whose span `time::Duration::days` can hold in seconds.
pub const MAX_SPAN_DAYS: i64 = 106751991167300;

/// Adds `days` days to 1970-01-01 with `time::Date::checked_add`. The
/// contract claims the date of the proleptic Gregorian calendar that
/// `time::Date` documents, none where the year leaves the range -9999 to
/// 9999 that it holds without its `large-dates` feature (as `checked_add`
/// and `from_julian_day` show), none for a count beyond the range of `i32`,
/// and a month from 1 to 12 and a day from 1 to 31.
/// `time::Duration::days` panics where the span overflows in seconds, which
/// the bound on `days` leaves out.
#[verifier::external_body]
fn add_days(days: i64) -> (r: Option<(i32, u8, u8)>)
    requires
        -MAX_SPAN_DAYS <= days <= MAX_SPAN_DAYS,
    ensures
        r == date_after_epoch(days as int),
        days < i32::MIN || days > i32::MAX ==> r is None,
        r matches Some(d) ==> 1 <= d.1 <= 12 && 1 <= d.2 <= 31,
{
    let epoch = time::Date::from_calendar_date(1970, time::Month::January, 1).ok()?;
    epoch.checked_add(time::Duration::days(days)).map(|d| (d.year(), u8::from(d.month()), d.day()))
}

/// The expiry date that the field of an entry of `/etc/shadow` gives, in
/// days since 1970-01-01: the message of the integer parser where the field
/// is no such count, and an error where the date lies out of range.
pub fn expiry_from_days(field: &str) -> (r: Result<(i32, u8, u8), String>)
    ensures
        match parse_int(field@, -MAX_SPAN_DAYS as int, MAX_SPAN_DAYS as int, true) {
            Err(e) => r is Err && r->Err_0@ == "failed to parse expiry date: "@ + int_error_message(e),
            Ok(d) => match date_after_epoch(d) {
                Some(x) => r == Ok::<(i32, u8, u8), String>(x),
                None => r is Err && r->Err_0@ == "expiry date out of range"@,
            },
        },
        r matches Ok(x) ==> 1 <= x.1 <= 12 && 1 <= x.2 <= 31,
{
    let days = match parse_integer(field, -MAX_SPAN_DAYS, MAX_SPAN_DAYS, true) {
        Ok(d) => d,
        Err(e) => {
            let m = int_error_string(e);
            return Err(concat2("failed to parse expiry date: ", m.as_str()));
        },
    };
    match add_days(days) {
        Some(x) => Ok(x),
        None => Err("expiry date out of range".to_owned()),
    }
}

/// Whether a line of a colon-separated account database is the entry of
/// `name`: the text before its first `:` is the name.
pub open spec fn entry_of_line(l: Seq<char>, name: Seq<char>) -> bool {
    first_index_of(l, ':') matches Some(k) && l.take(k) == name
}

/// The first line of `ls` that is the entry of `name`.
pub open spec fn account_line(ls: Seq<Seq<char>>, name: Seq<char>) -> Option<int> {
    if exists|i: int| 0 <= i < ls.len() && #[trigger] entry_of_line(ls[i], name)
            && forall|j: int| 0 <= j < i ==> !#[trigger] entry_of_line(ls[j], name) {
        Some(choose|i: int| 0 <= i < ls.len() && #[trigger] entry_of_line(ls[i], name)
            && forall|j: int| 0 <= j < i ==> !#[trigger] entry_of_line(ls[j], name))
    } else {
        None
    }
}

/// The fields of the entry of `name` in a colon-separated account database.
pub open spec fn account_fields(content: Seq<char>, name: Seq<char>) -> Option<Seq<Seq<char>>> {
    match account_line(lines_of(content), name) {
        Some(i) => Some(split(lines_of(content)[i], ':')),
        None => None,
    }
}

/// Finds the entry of `name` in a colon-separated account database, such
/// as `/etc/passwd`, and splits it into its fields.
pub fn find_account(content: &str, name: &str) -> (r: Option<Vec<Vec<char>>>)
    ensures
        match account_fields(content@, name@) {
            Some(f) => r matches Some(v) && views(v@) == f,
            None => r is None,
        },
{
    let cs = crate::text::chars_of(content);
    let ls = lines(&cs);
    let nm = crate::text::chars_of(name);
    let ghost lv = views(ls@);
    let mut i: usize = 0;
    while i < ls.len()
        invariant
            i <= ls@.len(),
            lv == views(ls@),
            lv == lines_of(content@),
            nm@ == name@,
            forall|j: int| 0 <= j < i ==> !#[trigger] entry_of_line(lv[j], name@),
        decreases ls.len() - i,
    {
        assert(lv[i as int] == ls@[i as int]@);
        if let Some(k) = find_first(&ls[i], ':') {
            let head = crate::text::slice_chars(&ls[i], 0, k);
            if chars_eq(&head, &nm) {
                assert(entry_of_line(lv[i as int], name@)) by {
                    assert(ls@[i as int]@.subrange(0, k as int) =~= ls@[i as int]@.take(k as int));
                }
                proof {
                    let w = choose|w: int| 0 <= w < lv.len() && #[trigger] entry_of_line(lv[w], name@)
                        && forall|j: int| 0 <= j < w ==> !#[trigger] entry_of_line(lv[j], name@);
                    assert(w == i) by {
                        if w < i {
                            assert(!entry_of_line(lv[w], name@));
                        } else if w > i {
                            assert(!entry_of_line(lv[i as int], name@));
                        }
                    }
                }
                return Some(split_chars(&ls[i], ':'));
            }
            proof {
                assert(ls@[i as int]@.subrange(0, k as int) =~= ls@[i as int]@.take(k as int));
            }
        }
        i = i + 1;
    }
    assert(account_line(lv, name@) is None) by {
        if exists|w: int| 0 <= w < lv.len() && #[trigger] entry_of_line(lv[w], name@) {
            let w = choose|w: int| 0 <= w < lv.len() && #[trigger] entry_of_line(lv[w], name@);
            assert(!entry_of_line(lv[w], name@));
        }
    }
    None
}

/// The message for a text that is no safe path.
pub open spec fn path_message(p: Seq<char>) -> Seq<char> {
    if !is_absolute(p) {
        "path must be absolute, got `"@ + p + "`"@
    } else {
        "path components must not contain relative references such as '.' or '..'"@
    }
}

/// What the fields of an entry of `/etc/passwd` give: the comment when it
/// is not empty, the home and the shell; none when a field is missing; the
/// message when the home or the shell is no safe path.
pub open spec fn passwd_of(f: Seq<Seq<char>>) -> Result<Option<(Option<Seq<char>>, Seq<char>, Seq<char>)>, Seq<char>> {
    let comment = if f.len() > 4 && f[4].len() > 0 { Some(f[4]) } else { None };
    if f.len() <= 5 {
        Ok(None)
    } else if !is_safe_path(f[5]) {
        Err(path_message(f[5]))
    } else if f.len() <= 6 {
        Ok(None)
    } else if !is_safe_path(f[6]) {
        Err(path_message(f[6]))
    } else {
        Ok(Some((comment, f[5], f[6])))
    }
}

/// The comment, home and shell of an entry of `/etc/passwd`.
pub fn passwd_entry(f: &Vec<Vec<char>>) -> (r: Result<Option<(Option<String>, SafePathBuf, SafePathBuf)>, String>)
    ensures
        match passwd_of(views(f@)) {
            Err(m) => r matches Err(e) && e@ == m,
            Ok(None) => r matches Ok(None),
            Ok(Some((c, h, s))) => r matches Ok(Some(x)) && (match x.0 { Some(t) => Some(t@), None => None }) == c
                && x.1@ == h && x.2@ == s,
        },
{
    let ghost fv = views(f@);
    let comment = if f.len() > 4 && f[4].len() > 0 {
        assert(fv[4] == f@[4]@);
        Some(string_of(&f[4]))
    } else {
        proof {
            if f.len() > 4 {
                assert(fv[4] == f@[4]@);
            }
        }
        None
    };
    if f.len() <= 5 {
        return Ok(None);
    }
    assert(fv[5] == f@[5]@);
    let home = match SafePathBuf::from_str(string_of(&f[5]).as_str()) {
        Ok(p) => p,
        Err(m) => {
            return Err(m);
        },
    };
    if f.len() <= 6 {
        return Ok(None);
    }
    assert(fv[6] == f@[6]@);
    let shell = match SafePathBuf::from_str(string_of(&f[6]).as_str()) {
        Ok(p) => p,
        Err(m) => {
            return Err(m);
        },
    };
    Ok(Some((comment, home, shell)))
}

/// What the fields of an entry of `/etc/shadow` give: the password and the
/// field of the expiry date, in days since 1970-01-01, when it is not empty;
/// none when the password field is missing; the message when the password
/// is neither locked nor a known hash.
pub open spec fn shadow_of(f: Seq<Seq<char>>) -> Result<Option<(Seq<char>, Option<Seq<char>>)>, Seq<char>> {
    if f.len() <= 1 {
        Ok(None)
    } else if password_check(f[1]) is None {
        Err("password string is not a valid hash"@)
    } else {
        Ok(Some((f[1], if f.len() > 7 && f[7].len() > 0 { Some(f[7]) } else { None })))
    }
}

/// An entry of `/etc/passwd` gives its fifth field as comment (none when
/// empty), its sixth as home and its seventh as shell, both safe paths; it
/// is refused only for a home or shell that is no safe path, and gives
/// nothing when it has fewer fields. An entry of `/etc/shadow` gives its
/// second field as password and its eighth, when not empty, as expiry; it
/// is refused exactly when the password is neither locked nor a known hash.
pub proof fn lemma_account_entries(f: Seq<Seq<char>>)
    ensures
        passwd_of(f) matches Ok(Some((c, h, sh))) ==> f.len() > 6 && h == f[5] && sh == f[6]
            && is_safe_path(h) && is_safe_path(sh) && c == (if f[4].len() > 0 { Some(f[4]) } else { None }),
        f.len() > 6 && is_safe_path(f[5]) && is_safe_path(f[6]) ==> passwd_of(f) is Ok && passwd_of(f)->Ok_0 is Some,
        passwd_of(f) is Err ==> f.len() > 5 && (!is_safe_path(f[5]) || (f.len() > 6 && !is_safe_path(f[6]))),
        shadow_of(f) matches Ok(Some((p, e))) ==> p == f[1] && password_check(f[1]) is Some
            && e == (if f.len() > 7 && f[7].len() > 0 { Some(f[7]) } else { None }),
        shadow_of(f) is Err <==> f.len() > 1 && password_check(f[1]) is None,
        f.len() <= 1 ==> shadow_of(f) == Ok::<Option<(Seq<char>, Option<Seq<char>>)>, Seq<char>>(None),
{
}

/// The password and the field of the expiry date of an entry of `/etc/shadow`.
pub fn shadow_entry(f: &Vec<Vec<char>>) -> (r: Result<Option<(Password, Option<String>)>, String>)
    ensures
        match shadow_of(views(f@)) {
            Err(m) => r matches Err(e) && e@ == m,
            Ok(None) => r matches Ok(None),
            Ok(Some((p, d))) => r matches Ok(Some(x))
                && (x.0 is Locked <==> password_check(p) == Some(false))
                && (x.0 is Unlocked ==> x.0.is_unlocked_with(p))
                && (match x.1 { Some(t) => Some(t@), None => None }) == d,
        },
{
    let ghost fv = views(f@);
    if f.len() <= 1 {
        return Ok(None);
    }
    assert(fv[1] == f@[1]@);
    let password = match Password::from_str(string_of(&f[1]).as_str()) {
        Ok(p) => p,
        Err(m) => {
            return Err(m);
        },
    };
    let expiry = if f.len() > 7 && f[7].len() > 0 {
        assert(fv[7] == f@[7]@);
        Some(string_of(&f[7]))
    } else {
        proof {
            if f.len() > 7 {
                assert(fv[7] == f@[7]@);
            }
        }
        None
    };
    Ok(Some((password, expiry)))
}

/// Whether texts are in order, equal ones side by side.
pub open spec fn texts_sorted(v: Seq<Seq<char>>) -> bool {
    forall|i: int, j: int| 0 <= i < j < v.len() ==> !text_lt(#[trigger] v[j], #[trigger] v[i])
}

/// The texts in order.
fn sort_texts(v: &Vec<Vec<char>>) -> (r: Vec<Vec<char>>)
    ensures
        texts_sorted(views(r@)),
        views(r@).to_multiset() == views(v@).to_multiset(),
{
    let ghost orig = views(v@);
    let mut out: Vec<Vec<char>> = Vec::new();
    let mut k: usize = 0;
    assert(orig.take(0) =~= views(out@));
    while k < v.len()
        invariant
            k <= v.len(),
            orig == views(v@),
            texts_sorted(views(out@)),
            views(out@).to_multiset() == orig.take(k as int).to_multiset(),
        decreases v.len() - k,
    {
        let g = v[k].clone();
        assert(g@ == orig[k as int]);
        let ghost names = views(out@);
        let sg = string_of(&g);
        let mut i: usize = 0;
        while i < out.len() && !text_less(sg.as_str(), string_of(&out[i]).as_str())
            invariant
                i <= out.len(),
                names == views(out@),
                sg@ == g@,
                forall|j: int| 0 <= j < i ==> !text_lt(g@, #[trigger] names[j]),
            decreases out.len() - i,
        {
            assert(names[i as int] == out@[i as int]@);
            i = i + 1;
        }
        proof {
            if i < out.len() {
                assert(names[i as int] == out@[i as int]@);
                assert(text_lt(g@, names[i as int]));
            }
        }
        let ghost gv = g@;
        out.insert(i, g);
        proof {
            let after = views(out@);
            assert(after =~= names.insert(i as int, gv));
            assert forall|a: int, b: int| 0 <= a < b < after.len() implies !text_lt(#[trigger] after[b], #[trigger] after[a]) by {
                if b < i {
                    assert(after[a] == names[a] && after[b] == names[b]);
                } else if b == i {
                    assert(after[a] == names[a]);
                } else if a == i {
                    assert(after[b] == names[b - 1]);
                    if text_lt(names[b - 1], gv) {
                        if b - 1 == i {
                            lemma_text_lt_trans(gv, names[b - 1], gv);
                            lemma_text_lt_irreflexive(gv);
                        } else {
                            assert(!text_lt(names[b - 1], names[i as int]));
                            lemma_text_lt_trans(names[b - 1], gv, names[i as int]);
                        }
                    }
                } else if a < i {
                    assert(after[a] == names[a] && after[b] == names[b - 1]);
                } else {
                    assert(after[a] == names[a - 1] && after[b] == names[b - 1]);
                }
            }
            assert(orig.take(k + 1) =~= orig.take(k as int).push(gv));
            vstd::seq_lib::to_multiset_insert(names, i as int, gv);
            vstd::seq_lib::to_multiset_build(orig.take(k as int), gv);
        }
        k = k + 1;
    }
    assert(orig.take(v.len() as int) =~= orig);
    out
}

/// The groups of an account as `id --groups --name` writes them: the
/// primary group first, then the supplementary groups, which come out in
/// order.
pub fn account_groups(output: &str) -> (r: (String, Vec<String>))
    requires
        words_of(output@).len() >= 1,
    ensures
        r.0@ == words_of(output@)[0],
        texts_sorted(r.1@.map_values(|s: String| s@)),
        r.1@.map_values(|s: String| s@).to_multiset() == words_of(output@).drop_first().to_multiset(),
{
    let cs = crate::text::chars_of(output);
    let mut ws = words(&cs);
    let first = ws.remove(0);
    assert(views(ws@) =~= words_of(output@).drop_first());
    let sorted = sort_texts(&ws);
    let mut out: Vec<String> = Vec::new();
    let mut i: usize = 0;
    while i < sorted.len()
        invariant
            i <= sorted@.len(),
            out@.len() == i,
            forall|j: int| 0 <= j < i ==> (#[trigger] out@[j])@ == sorted@[j]@,
        decreases sorted.len() - i,
    {
        out.push(string_of(&sorted[i]));
        i = i + 1;
    }
    assert(out@.map_values(|s: String| s@) =~= views(sorted@));
    (string_of(&first), out)
}

} // verus!
