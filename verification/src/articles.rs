//! The markdown article helpers: the path-traversal guard, the escaped
//! article body, and the listing's filter, order and link targets.
//!
//! The guard is a required safety contract: a filename is served only when
//! it ends in `.md` and contains no path separator and no parent-directory
//! segment, so no request ever names a file outside the articles
//! directory.

use vstd::prelude::*;

use crate::models::ArticleError;

verus! {

/// The filename ends in `.md`.
pub open spec fn md_suffixed(s: Seq<char>) -> bool {
    s.len() >= 3 && s[s.len() - 3] == '.' && s[s.len() - 2] == 'm' && s[s.len() - 1] == 'd'
}

/// What the guard accepts: a `.md` name with no path separator (either
/// kind) and no `..` segment anywhere.
pub open spec fn safe_markdown_name(s: Seq<char>) -> bool {
    &&& md_suffixed(s)
    &&& forall|i: int| 0 <= i < s.len() ==> s[i] != '/' && #[trigger] s[i] != '\\'
    &&& forall|i: int| 0 <= i < s.len() - 1 ==> !(#[trigger] s[i] == '.' && s[i + 1] == '.')
}

/// The path-traversal guard: accept exactly the names that end in `.md`
/// and hold no `/`, no `\` and no `..`.
pub fn is_safe_markdown_name(name: &str) -> (r: bool)
    ensures
        r == safe_markdown_name(name@),
{
    let n = name.unicode_len();
    if n < 3 {
        return false;
    }
    if name.get_char(n - 3) != '.' || name.get_char(n - 2) != 'm' || name.get_char(n - 1) != 'd' {
        return false;
    }
    let mut i: usize = 0;
    while i < n
        invariant
            n == name@.len(),
            i <= n,
            forall|k: int| 0 <= k < i ==> name@[k] != '/' && #[trigger] name@[k] != '\\',
            forall|k: int| 0 <= k < i && k < n - 1 ==> !(#[trigger] name@[k] == '.' && name@[k + 1]
                == '.'),
        decreases n - i,
    {
        let c = name.get_char(i);
        if c == '/' || c == '\\' {
            return false;
        }
        if c == '.' && i + 1 < n {
            if name.get_char(i + 1) == '.' {
                return false;
            }
        }
        i = i + 1;
    }
    true
}

/// One character of HTML text encoding: the three specials become their
/// entities, every other character stands as itself.
pub open spec fn html_escape_char(c: char) -> Seq<char> {
    if c == '&' {
        seq!['&', 'a', 'm', 'p', ';']
    } else if c == '<' {
        seq!['&', 'l', 't', ';']
    } else if c == '>' {
        seq!['&', 'g', 't', ';']
    } else {
        seq![c]
    }
}

/// HTML text encoding of a whole string, character by character.
pub open spec fn html_escaped(s: Seq<char>) -> Seq<char>
    decreases s.len(),
{
    if s.len() == 0 {
        Seq::empty()
    } else {
        html_escape_char(s[0]) + html_escaped(s.drop_first())
    }
}

/// Relies on html_escape::encode_text: it replaces `&` with `&amp;`, `<`
/// with `&lt;` and `>` with `&gt;`, and leaves every other character as it
/// is.
#[verifier::external_body]
fn encode_text_html(s: &str) -> (r: String)
    ensures
        r@ == html_escaped(s@),
{
    html_escape::encode_text(s).into_owned()
}

/// The article body to serve: the guard first — a rejected name never
/// reaches storage — then the content with HTML specials escaped.
pub fn article_content_html(filename: &str, content: &str) -> (r: Result<String, ArticleError>)
    ensures
        match r {
            Ok(body) => safe_markdown_name(filename@) && body@ == html_escaped(content@),
            Err(e) => e matches ArticleError::BadRequest && !safe_markdown_name(filename@),
        },
{
    if !is_safe_markdown_name(filename) {
        return Err(ArticleError::BadRequest);
    }
    Ok(encode_text_html(content))
}

/// What urlencoding::encode returns for these characters: the percent
/// encoding of the name's UTF-8 bytes.
pub uninterp spec fn url_encoded(s: Seq<char>) -> Seq<char>;

/// Relies on urlencoding::encode: it percent-encodes every byte outside
/// ASCII alphanumerics and `-`, `.`, `_`, `~`; the result depends on the
/// input characters alone.
#[verifier::external_body]
fn url_encode(s: &str) -> (r: String)
    ensures
        r@ == url_encoded(s@),
{
    urlencoding::encode(s).into_owned()
}

/// The listing's link pairs: for each filename, in order, the URL-encoded
/// link target and the display name.
pub fn article_link_entries(files: &Vec<String>) -> (r: Vec<(String, String)>)
    ensures
        r@.len() == files@.len(),
        forall|i: int|
            0 <= i < r@.len() ==> (#[trigger] r@[i]).0@ == url_encoded(files@[i]@) && r@[i].1@
                == files@[i]@,
{
    let mut out: Vec<(String, String)> = Vec::new();
    let mut i: usize = 0;
    while i < files.len()
        invariant
            i <= files.len(),
            out@.len() == i,
            forall|k: int|
                0 <= k < i ==> (#[trigger] out@[k]).0@ == url_encoded(files@[k]@) && out@[k].1@
                    == files@[k]@,
        decreases files.len() - i,
    {
        let target = url_encode(files[i].as_str());
        out.push((target, files[i].clone()));
        i = i + 1;
    }
    out
}

/// The names of a directory listing that the article index keeps: those
/// with the `.md` suffix, in their given order.
pub open spec fn md_only(names: Seq<String>) -> Seq<String>
    decreases names.len(),
{
    if names.len() == 0 {
        Seq::empty()
    } else if md_suffixed(names.last()@) {
        md_only(names.drop_last()).push(names.last())
    } else {
        md_only(names.drop_last())
    }
}

/// Keep exactly the `.md` names of a directory listing, in order.
pub fn markdown_files(names: Vec<String>) -> (r: Vec<String>)
    ensures
        r@ == md_only(names@),
{
    let mut out: Vec<String> = Vec::new();
    let mut i: usize = 0;
    proof {
        assert(names@.take(0) =~= Seq::<String>::empty());
    }
    while i < names.len()
        invariant
            i <= names.len(),
            out@ == md_only(names@.take(i as int)),
        decreases names.len() - i,
    {
        let name = &names[i];
        let n = name.unicode_len();
        let keep = if n < 3 {
            false
        } else {
            name.as_str().get_char(n - 3) == '.' && name.as_str().get_char(n - 2) == 'm'
                && name.as_str().get_char(n - 1) == 'd'
        };
        proof {
            assert(keep == md_suffixed(names@[i as int]@));
            assert(names@.take(i as int + 1).drop_last() =~= names@.take(i as int));
            assert(names@.take(i as int + 1).last() == names@[i as int]);
        }
        if keep {
            out.push(name.clone());
        }
        i = i + 1;
    }
    proof {
        assert(names@.take(i as int) =~= names@);
    }
    out
}

/// Lexicographic order on character sequences, by code point: the order
/// of Rust's own string comparison. The empty sequence comes first, and a
/// proper prefix comes before its extensions.
pub open spec fn lex_le(a: Seq<char>, b: Seq<char>) -> bool
    decreases a.len(),
{
    if a.len() == 0 {
        true
    } else if b.len() == 0 {
        false
    } else if a[0] == b[0] {
        lex_le(a.drop_first(), b.drop_first())
    } else {
        (a[0] as int) < (b[0] as int)
    }
}

/// Any two sequences compare one way or the other.
pub proof fn lemma_lex_le_total(a: Seq<char>, b: Seq<char>)
    ensures
        lex_le(a, b) || lex_le(b, a),
    decreases a.len(),
{
    if a.len() > 0 && b.len() > 0 && a[0] == b[0] {
        lemma_lex_le_total(a.drop_first(), b.drop_first());
    }
}

/// Two sequences each at or before the other are the same sequence.
pub proof fn lemma_lex_le_antisymmetric(a: Seq<char>, b: Seq<char>)
    requires
        lex_le(a, b),
        lex_le(b, a),
    ensures
        a == b,
    decreases a.len(),
{
    if a.len() == 0 {
        assert(a =~= b);
    } else {
        assert(b.len() > 0);
        assert(a[0] == b[0]);
        lemma_lex_le_antisymmetric(a.drop_first(), b.drop_first());
        assert(a.len() == b.len());
        assert forall|i: int| 0 <= i < a.len() implies a[i] == b[i] by {
            if i > 0 {
                assert(a[i] == a.drop_first()[i - 1]);
                assert(b[i] == b.drop_first()[i - 1]);
            }
        }
        assert(a =~= b);
    }
}

/// The order is transitive.
pub proof fn lemma_lex_le_transitive(a: Seq<char>, b: Seq<char>, c: Seq<char>)
    requires
        lex_le(a, b),
        lex_le(b, c),
    ensures
        lex_le(a, c),
    decreases a.len(),
{
    if a.len() > 0 {
        assert(b.len() > 0);
        assert(c.len() > 0);
        if a[0] == b[0] && b[0] == c[0] {
            lemma_lex_le_transitive(a.drop_first(), b.drop_first(), c.drop_first());
        }
    }
}

/// Compare two strings in the lexicographic order, character by
/// character.
pub fn str_lex_le(a: &str, b: &str) -> (r: bool)
    ensures
        r == lex_le(a@, b@),
{
    let an = a.unicode_len();
    let bn = b.unicode_len();
    let mut i: usize = 0;
    proof {
        assert(a@.skip(0) =~= a@);
        assert(b@.skip(0) =~= b@);
    }
    while i < an && i < bn
        invariant
            an == a@.len(),
            bn == b@.len(),
            i <= an,
            i <= bn,
            lex_le(a@, b@) == lex_le(a@.skip(i as int), b@.skip(i as int)),
        decreases an - i,
    {
        let ca = a.get_char(i);
        let cb = b.get_char(i);
        if ca != cb {
            return (ca as u32) < (cb as u32);
        }
        proof {
            assert(a@.skip(i as int).drop_first() =~= a@.skip(i as int + 1));
            assert(b@.skip(i as int).drop_first() =~= b@.skip(i as int + 1));
        }
        i = i + 1;
    }
    an <= bn
}

/// The names stand in lexicographic order.
pub open spec fn sorted_names(s: Seq<String>) -> bool {
    forall|i: int, j: int| 0 <= i < j < s.len() ==> lex_le(#[trigger] s[i]@, #[trigger] s[j]@)
}

/// The place where a name belongs in a sorted listing: everything before
/// it comes at or before the name, everything from it on comes at or
/// after.
fn insertion_point(sorted: &Vec<String>, x: &String) -> (j: usize)
    requires
        sorted_names(sorted@),
    ensures
        j <= sorted@.len(),
        forall|k: int| 0 <= k < j ==> lex_le(#[trigger] sorted@[k]@, x@),
        forall|k: int| j <= k < sorted@.len() ==> lex_le(x@, #[trigger] sorted@[k]@),
{
    let mut j: usize = 0;
    while j < sorted.len()
        invariant
            sorted_names(sorted@),
            j <= sorted@.len(),
            forall|k: int| 0 <= k < j ==> lex_le(#[trigger] sorted@[k]@, x@),
        decreases sorted.len() - j,
    {
        if !str_lex_le(sorted[j].as_str(), x.as_str()) {
            proof {
                lemma_lex_le_total(sorted@[j as int]@, x@);
                assert forall|k: int| j <= k < sorted@.len() implies lex_le(
                    x@,
                    #[trigger] sorted@[k]@,
                ) by {
                    if k > j {
                        lemma_lex_le_transitive(x@, sorted@[j as int]@, sorted@[k]@);
                    }
                }
            }
            return j;
        }
        j = j + 1;
    }
    j
}

/// Sort a listing's names lexicographically: the result holds exactly the
/// given names, in order.
pub fn sort_names(names: &Vec<String>) -> (r: Vec<String>)
    ensures
        sorted_names(r@),
        r@.to_multiset() == names@.to_multiset(),
{
    broadcast use vstd::seq_lib::group_to_multiset_ensures;

    let mut out: Vec<String> = Vec::new();
    let mut i: usize = 0;
    proof {
        assert(names@.take(0) =~= Seq::<String>::empty());
        assert(names@.take(0).to_multiset() =~= out@.to_multiset());
    }
    while i < names.len()
        invariant
            i <= names.len(),
            sorted_names(out@),
            out@.to_multiset() == names@.take(i as int).to_multiset(),
        decreases names.len() - i,
    {
        let x = names[i].clone();
        let j = insertion_point(&out, &x);
        let ghost prev = out@;
        let ghost xv = x;
        out.insert(j, x);
        proof {
            broadcast use vstd::seq_lib::group_to_multiset_ensures;

            crate::store::lemma_insert_to_multiset(prev, j as int, xv);
            assert(names@.take(i as int + 1).drop_last() =~= names@.take(i as int));
            assert(names@.take(i as int + 1) =~= names@.take(i as int).push(names@[i as int]));
            assert(names@.take(i as int).push(names@[i as int]).to_multiset() =~= names@.take(
                i as int,
            ).to_multiset().insert(names@[i as int]));
            assert(out@.to_multiset() == names@.take(i as int + 1).to_multiset());
            prev.insert_ensures(j as int, xv);
            assert forall|k1: int, k2: int| 0 <= k1 < k2 < out@.len() implies lex_le(
                #[trigger] out@[k1]@,
                #[trigger] out@[k2]@,
            ) by {
                if k2 < j {
                    assert(out@[k1] == prev[k1] && out@[k2] == prev[k2]);
                } else if k2 == j {
                    assert(out@[k1] == prev[k1] && out@[k2] == xv);
                } else if k1 < j {
                    assert(out@[k1] == prev[k1] && out@[k2] == prev[k2 - 1]);
                } else if k1 == j {
                    assert(out@[k1] == xv && out@[k2] == prev[k2 - 1]);
                } else {
                    assert(out@[k1] == prev[k1 - 1] && out@[k2] == prev[k2 - 1]);
                }
            }
        }
        i = i + 1;
    }
    proof {
        assert(names@.take(i as int) =~= names@);
    }
    out
}

} // verus!
