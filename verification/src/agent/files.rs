use crate::common::resources::file::Mode;
use crate::server::api_key::{hex_bytes, sha256_digest, sha256_hex, sha256_hex_bytes};
use crate::server::resolve::{holds_at, occ_from, replace_all, replace_from};
use crate::text::{chars_of, str_eq, string_of};
use vstd::prelude::*;
use vstd::string::StringSliceAdditionalSpecFns;

verus! {

/// Whether each character is an octal digit.
pub open spec fn all_octal(s: Seq<char>) -> bool {
    forall|i: int| 0 <= i < s.len() ==> '0' <= #[trigger] s[i] && s[i] <= '7'
}

/// The value of octal digits.
pub open spec fn octal_value(s: Seq<char>) -> int
    decreases s.len(),
{
    if s.len() == 0 {
        0
    } else {
        octal_value(s.drop_last()) * 8 + (s.last() as int - '0' as int)
    }
}

/// The value of octal digits is their number in base eight: for three
/// digits `abc` it is `a * 64 + b * 8 + c`, for four digits `abcd` it is
/// `a * 512 + b * 64 + c * 8 + d`, and one more digit multiplies by eight
/// and adds it.
pub proof fn lemma_octal_value(s: Seq<char>, c: char)
    ensures
        octal_value(s.push(c)) == octal_value(s) * 8 + (c as int - '0' as int),
        s.len() == 3 ==> octal_value(s) == (s[0] as int - '0' as int) * 64 + (s[1] as int - '0' as int) * 8
            + (s[2] as int - '0' as int),
        s.len() == 4 ==> octal_value(s) == (s[0] as int - '0' as int) * 512 + (s[1] as int - '0' as int) * 64
            + (s[2] as int - '0' as int) * 8 + (s[3] as int - '0' as int),
{
    assert(s.push(c).drop_last() =~= s);
    if s.len() == 3 || s.len() == 4 {
        reveal_with_fuel(octal_value, 5);
        let s1 = s.drop_last();
        let s2 = s1.drop_last();
        let s3 = s2.drop_last();
        assert(s1.last() == s[s.len() - 2]);
        assert(s2.last() == s[s.len() - 3]);
        if s.len() == 4 {
            assert(s3.last() == s[0]);
            assert(s3.drop_last().len() == 0);
        } else {
            assert(s3.len() == 0);
        }
    }
}

/// The permission bits that a mode stands for, read as an octal number as
/// `u32::from_str_radix` reads it.
pub fn mode_bits(m: &Mode) -> (r: Result<u32, String>)
    ensures
        r matches Ok(v) ==> m@.len() > 0 && all_octal(m@) && v == octal_value(m@),
        (m@.len() > 0 && all_octal(m@) && octal_value(m@) <= u32::MAX) ==> r is Ok,
        m@.len() == 0 ==> (r matches Err(e) && e@ == "cannot parse integer from empty string"@),
{
    let cs = chars_of(m.as_str());
    if cs.len() == 0 {
        return Err("cannot parse integer from empty string".to_owned());
    }
    let mut v: u32 = 0;
    let mut i: usize = 0;
    assert(cs@.take(0) =~= Seq::<char>::empty());
    while i < cs.len()
        invariant
            i <= cs@.len(),
            cs@ == m@,
            all_octal(cs@.take(i as int)),
            v as int == octal_value(cs@.take(i as int)),
        decreases cs.len() - i,
    {
        let c = cs[i];
        assert(cs@.take(i + 1).drop_last() =~= cs@.take(i as int));
        if !('0' <= c && c <= '7') {
            proof {
                assert(!all_octal(m@)) by {
                    assert(!('0' <= m@[i as int] && m@[i as int] <= '7'));
                }
            }
            return Err("invalid digit found in string".to_owned());
        }
        let d = ((c as u32) - 48) as u32;
        if v > (u32::MAX - d) / 8 {
            proof {
                lemma_octal_prefix_grows(m@, (i + 1) as int);
            }
            return Err("number too large to fit in target type".to_owned());
        }
        v = v * 8 + d;
        i = i + 1;
        assert(all_octal(cs@.take(i as int)));
    }
    assert(cs@.take(cs.len() as int) =~= cs@);
    Ok(v)
}

proof fn lemma_octal_prefix_grows(s: Seq<char>, k: int)
    requires
        0 <= k <= s.len(),
        all_octal(s.take(k)),
    ensures
        all_octal(s) ==> octal_value(s.take(k)) <= octal_value(s),
    decreases s.len() - k,
{
    if all_octal(s) {
        if k == s.len() {
            assert(s.take(k) =~= s);
        } else {
            assert(all_octal(s.take(k + 1)));
            lemma_octal_prefix_grows(s, k + 1);
            assert(s.take(k + 1).drop_last() =~= s.take(k));
            assert(s.take(k + 1).last() == s[k]);
            lemma_octal_nonneg(s.take(k));
        }
    }
}

proof fn lemma_octal_nonneg(s: Seq<char>)
    requires
        all_octal(s),
    ensures
        octal_value(s) >= 0,
    decreases s.len(),
{
    if s.len() > 0 {
        assert(all_octal(s.drop_last()));
        lemma_octal_nonneg(s.drop_last());
    }
}

/// Whether the permission bits of a file differ from those of its mode:
/// the bits of the file are compared below `0o777`.
pub fn mode_differs(current: u32, wanted: u32) -> (r: bool)
    ensures
        r == ((current & 0o777) != wanted),
{
    (current & 0o777) != wanted
}

/// The digest of bytes in lowercase hexadecimal, as the server's `ETag` is.
pub fn etag_of(bytes: &[u8]) -> (r: String)
    ensures
        r@ == hex_bytes(sha256_digest(bytes@)),
{
    sha256_hex_bytes(bytes)
}

/// Whether content differs from the file whose digest is `etag`.
pub fn content_differs(content: &str, etag: &str) -> (r: bool)
    ensures
        r == (hex_bytes(sha256_digest(content.spec_bytes())) != etag@),
{
    let d = sha256_hex(content);
    !str_eq(d.as_str(), etag)
}

/// A text with `rep` put before, between and after its characters: what
/// `str::replace` gives for an empty pattern.
pub open spec fn interleaved(s: Seq<char>, rep: Seq<char>) -> Seq<char>
    decreases s.len(),
{
    if s.len() == 0 {
        rep
    } else {
        interleaved(s.drop_last(), rep) + seq![s.last()] + rep
    }
}

/// A text with each occurrence of `pat` replaced by `rep`, from left to
/// right, as `str::replace` does.
pub open spec fn replaced(s: Seq<char>, pat: Seq<char>, rep: Seq<char>) -> Seq<char> {
    if pat.len() == 0 {
        interleaved(s, rep)
    } else {
        replace_from(s, pat, rep, 0)
    }
}

proof fn lemma_replace_from_len(cs: Seq<char>, pat: Seq<char>, rep: Seq<char>, p: int)
    requires
        pat.len() > 0,
        0 <= p <= cs.len(),
    ensures
        replace_from(cs, pat, rep, p).len() == (cs.len() - p) + occ_from(cs, pat, p).len() * (rep.len() - pat.len()),
        (forall|q: int| p <= q < cs.len() ==> !#[trigger] holds_at(cs, pat, q)) ==> replace_from(cs, pat, rep, p) == cs.skip(p),
    decreases cs.len() - p,
{
    if p >= cs.len() {
        assert(occ_from(cs, pat, p).len() == 0);
    } else if holds_at(cs, pat, p) {
        lemma_replace_from_len(cs, pat, rep, p + pat.len());
        let k = occ_from(cs, pat, p + pat.len()).len() as int;
        let d = rep.len() - pat.len();
        assert((k + 1) * d == k * d + d) by (nonlinear_arith);
    } else {
        lemma_replace_from_len(cs, pat, rep, p + 1);
        if p + pat.len() > cs.len() {
            assert(occ_from(cs, pat, p).len() == 0);
            assert(occ_from(cs, pat, p + 1).len() == 0);
        }
        if forall|q: int| p <= q < cs.len() ==> !#[trigger] holds_at(cs, pat, q) {
            assert(cs.skip(p) =~= seq![cs[p]] + cs.skip(p + 1));
        }
    }
}

/// Replacing a non-empty placeholder replaces each of its occurrences,
/// matched from left to right without overlap: the text grows by the
/// difference in length for each occurrence, a text without the
/// placeholder is left as it is, and the placeholder alone gives the
/// output.
pub proof fn lemma_replaced(s: Seq<char>, pat: Seq<char>, rep: Seq<char>)
    requires
        pat.len() > 0,
    ensures
        replaced(s, pat, rep).len() == s.len() + occ_from(s, pat, 0).len() * (rep.len() - pat.len()),
        (forall|q: int| 0 <= q < s.len() ==> !#[trigger] holds_at(s, pat, q)) ==> replaced(s, pat, rep) == s,
        replaced(pat, pat, rep) == rep,
{
    lemma_replace_from_len(s, pat, rep, 0);
    assert(s.skip(0) =~= s);
    assert(holds_at(pat, pat, 0)) by {
        assert(pat.subrange(0, pat.len() as int) =~= pat);
    }
    assert(replace_from(pat, pat, rep, pat.len() as int) =~= Seq::<char>::empty());
    assert(rep + Seq::<char>::empty() =~= rep);
}

/// The content with the placeholders of the first `n` replacements replaced
/// in turn by their outputs.
pub open spec fn placeholders_replaced(s: Seq<char>, pairs: Seq<(Seq<char>, Seq<char>)>, n: nat) -> Seq<char>
    decreases n,
{
    if n == 0 || n > pairs.len() {
        s
    } else {
        replaced(placeholders_replaced(s, pairs, (n - 1) as nat), pairs[n - 1].0, pairs[n - 1].1)
    }
}

/// The views of placeholders and outputs.
pub open spec fn pair_views(v: Seq<(String, String)>) -> Seq<(Seq<char>, Seq<char>)> {
    v.map_values(|p: (String, String)| (p.0@, p.1@))
}

fn interleave(cs: &Vec<char>, rep: &Vec<char>) -> (r: Vec<char>)
    ensures
        r@ == interleaved(cs@, rep@),
{
    let mut out: Vec<char> = rep.clone();
    let mut i: usize = 0;
    assert(cs@.take(0) =~= Seq::<char>::empty());
    while i < cs.len()
        invariant
            i <= cs@.len(),
            out@ == interleaved(cs@.take(i as int), rep@),
        decreases cs.len() - i,
    {
        assert(cs@.take(i + 1).drop_last() =~= cs@.take(i as int));
        let ghost before = out@;
        out.push(cs[i]);
        let mut k: usize = 0;
        while k < rep.len()
            invariant
                k <= rep@.len(),
                i < cs@.len(),
                out@ == before + seq![cs@[i as int]] + rep@.take(k as int),
            decreases rep.len() - k,
        {
            out.push(rep[k]);
            assert(out@ =~= before + seq![cs@[i as int]] + rep@.take(k + 1));
            k = k + 1;
        }
        assert(rep@.take(k as int) =~= rep@);
        i = i + 1;
    }
    assert(cs@.take(cs.len() as int) =~= cs@);
    out
}

/// Replaces the placeholders of file content, in turn, by the output of
/// the command of each.
pub fn replace_placeholders(value: &str, pairs: &Vec<(String, String)>) -> (r: String)
    ensures
        r@ == placeholders_replaced(value@, pair_views(pairs@), pairs@.len() as nat),
{
    let mut cur = chars_of(value);
    let mut i: usize = 0;
    while i < pairs.len()
        invariant
            i <= pairs@.len(),
            cur@ == placeholders_replaced(value@, pair_views(pairs@), i as nat),
        decreases pairs.len() - i,
    {
        let pat = chars_of(pairs[i].0.as_str());
        let rep = chars_of(pairs[i].1.as_str());
        assert(pair_views(pairs@)[i as int] == (pairs@[i as int].0@, pairs@[i as int].1@));
        if pat.len() == 0 {
            cur = interleave(&cur, &rep);
        } else {
            cur = replace_all(&cur, &pat, &rep);
        }
        i = i + 1;
    }
    string_of(&cur)
}

} // verus!
