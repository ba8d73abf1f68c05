//! Text helpers shared by the other modules: views of lists of strings, the
//! hidden-name rule, and splitting a command line into words.

use vstd::prelude::*;

verus! {

/// The character that marks a hidden file-system entry when it leads a name.
pub const HIDDEN_MARKER: char = '.';

/// A name is hidden when its first character is the hidden marker.
pub open spec fn is_hidden(name: Seq<char>) -> bool {
    name.len() > 0 && name[0] == HIDDEN_MARKER
}

/// The texts of a list of strings, in order.
pub open spec fn texts(list: Seq<String>) -> Seq<Seq<char>> {
    list.map_values(|s: String| s@)
}

/// Appending a string appends its text.
pub proof fn lemma_texts_push(list: Seq<String>, last: String)
    ensures
        texts(list.push(last)) == texts(list).push(last@),
{
    assert(texts(list.push(last)) =~= texts(list).push(last@));
}

/// Tells whether `name` is hidden.
pub fn is_hidden_name(name: &str) -> (hidden: bool)
    ensures
        hidden == is_hidden(name@),
{
    if name.is_empty() {
        false
    } else {
        name.get_char(0) == HIDDEN_MARKER
    }
}

/// A copy of a list of strings.
pub fn copy_texts(list: &Vec<String>) -> (copy: Vec<String>)
    ensures
        texts(copy@) == texts(list@),
{
    let mut copy: Vec<String> = Vec::new();
    let mut i: usize = 0;
    while i < list.len()
        invariant
            i <= list.len(),
            texts(copy@) == texts(list@.take(i as int)),
        decreases list.len() - i,
    {
        let ghost before = copy@;
        copy.push(list[i].clone());
        proof {
            assert(list@.take(i + 1) =~= list@.take(i as int).push(list@[i as int]));
            assert(copy@ =~= before.push(list@[i as int]));
            lemma_texts_push(before, list@[i as int]);
            lemma_texts_push(list@.take(i as int), list@[i as int]);
        }
        i += 1;
    }
    proof {
        assert(list@.take(list.len() as int) =~= list@);
    }
    copy
}

/// The character that separates the components of a path.
pub const SEPARATOR: char = '/';

/// The components of a path written out, with a separator between
/// neighbours.
pub open spec fn joined(components: Seq<Seq<char>>) -> Seq<char>
    decreases components.len(),
{
    if components.len() == 0 {
        Seq::empty()
    } else if components.len() == 1 {
        components[0]
    } else {
        joined(components.drop_last()) + seq![SEPARATOR] + components.last()
    }
}

/// The path of the entry at `components` below `root`, written out.
pub open spec fn below(root: Seq<char>, components: Seq<Seq<char>>) -> Seq<char> {
    if components.len() == 0 {
        root
    } else {
        root + seq![SEPARATOR] + joined(components)
    }
}

/// Writes out a path given by its components.
pub fn join_path(components: &Vec<String>) -> (path: String)
    ensures
        path@ == joined(texts(components@)),
{
    let mut path = String::new();
    let mut i: usize = 0;
    let ghost all = texts(components@);
    proof {
        reveal_strlit("/");
        assert(all.take(0) =~= Seq::<Seq<char>>::empty());
    }
    while i < components.len()
        invariant
            i <= components.len(),
            all == texts(components@),
            "/"@ == seq![SEPARATOR],
            path@ == joined(all.take(i as int)),
        decreases components.len() - i,
    {
        proof {
            assert(all.take(i + 1).drop_last() =~= all.take(i as int));
            assert(all.take(i + 1).last() == components@[i as int]@);
            if i == 0 {
                assert(path@ + components@[0]@ =~= components@[0]@);
            }
        }
        if i > 0 {
            path.append("/");
        }
        path.append(components[i].as_str());
        i += 1;
    }
    assert(all.take(i as int) =~= all);
    path
}

/// Writes out the path of the entry at `components` below `root`.
pub fn path_below(root: &str, components: &Vec<String>) -> (path: String)
    ensures
        path@ == below(root@, texts(components@)),
{
    let mut path = root.to_owned();
    if components.len() > 0 {
        proof {
            reveal_strlit("/");
        }
        path.append("/");
        path.append(join_path(components).as_str());
    }
    path
}

/// The characters that separate the words of a command line.
pub open spec fn is_blank(c: char) -> bool {
    c == ' ' || c == '\t' || c == '\n' || c == '\r'
}

/// The length of the longest prefix of `s` that holds no blank.
pub open spec fn word_len(s: Seq<char>) -> nat
    decreases s.len(),
{
    if s.len() == 0 || is_blank(s[0]) {
        0
    } else {
        1 + word_len(s.skip(1))
    }
}

/// The words of `s`: its maximal runs of characters that are not blank, in
/// order.
pub open spec fn words(s: Seq<char>) -> Seq<Seq<char>>
    decreases s.len(),
{
    if s.len() == 0 {
        Seq::empty()
    } else if is_blank(s[0]) {
        words(s.skip(1))
    } else {
        let n = word_len(s) as int;
        proof {
            lemma_word_len_bounds(s);
        }
        seq![s.take(n)] + words(s.skip(n))
    }
}

/// A word is no longer than the text it begins, and not empty where the
/// text begins with a character that is not blank.
pub proof fn lemma_word_len_bounds(s: Seq<char>)
    ensures
        word_len(s) <= s.len(),
        s.len() > 0 && !is_blank(s[0]) ==> word_len(s) >= 1,
    decreases s.len(),
{
    if s.len() > 0 && !is_blank(s[0]) {
        lemma_word_len_bounds(s.skip(1));
    }
}

/// A run of `n` characters without a blank, followed by a blank or by the
/// end of the text, is the first word.
pub proof fn lemma_word_len_run(s: Seq<char>, n: nat)
    requires
        n <= s.len(),
        forall|k: int| 0 <= k < n ==> !is_blank(s[k]),
        n == s.len() || is_blank(s[n as int]),
    ensures
        word_len(s) == n,
    decreases n,
{
    if n > 0 {
        let rest = s.skip(1);
        assert forall|k: int| 0 <= k < n - 1 implies !is_blank(rest[k]) by {
            assert(rest[k] == s[k + 1]);
        }
        lemma_word_len_run(rest, (n - 1) as nat);
    }
}

/// The first word of a text holds no blank.
proof fn lemma_first_word_solid(s: Seq<char>, k: int)
    requires
        0 <= k < word_len(s),
    ensures
        k < s.len(),
        !is_blank(s[k]),
    decreases s.len(),
{
    if k > 0 {
        lemma_first_word_solid(s.skip(1), k - 1);
        assert(s.skip(1)[k - 1] == s[k]);
    }
}

/// Every word of a text is non-empty and holds no blank.
pub proof fn law_words_are_solid(s: Seq<char>, i: int, k: int)
    requires
        0 <= i < words(s).len(),
        0 <= k < words(s)[i].len(),
    ensures
        words(s)[i].len() > 0,
        !is_blank(words(s)[i][k]),
    decreases s.len(),
{
    if is_blank(s[0]) {
        law_words_are_solid(s.skip(1), i, k);
    } else {
        let n = word_len(s) as int;
        lemma_word_len_bounds(s);
        if i == 0 {
            lemma_first_word_solid(s, k);
        } else {
            assert(words(s)[i] == words(s.skip(n))[i - 1]);
            law_words_are_solid(s.skip(n), i - 1, k);
        }
    }
}

/// A text without a blank is one word, unless it is empty.
pub proof fn law_solid_text_is_one_word(s: Seq<char>)
    requires
        s.len() > 0,
        forall|k: int| 0 <= k < s.len() ==> !is_blank(s[k]),
    ensures
        words(s) == seq![s],
{
    lemma_word_len_run(s, s.len());
    assert(s.take(s.len() as int) =~= s);
    assert(words(s.skip(s.len() as int)) =~= Seq::<Seq<char>>::empty());
    assert(words(s) =~= seq![s]);
}

/// Tells whether `c` is blank.
pub fn is_blank_char(c: char) -> (blank: bool)
    ensures
        blank == is_blank(c),
{
    c == ' ' || c == '\t' || c == '\n' || c == '\r'
}

/// Splits `line` into its words.
pub fn split_words(line: &str) -> (out: Vec<String>)
    ensures
        texts(out@) == words(line@),
{
    let n = line.unicode_len();
    let mut out: Vec<String> = Vec::new();
    let mut i: usize = 0;
    assert(line@.skip(0) =~= line@);
    assert(texts(out@) + words(line@) =~= words(line@));
    while i < n
        invariant
            i <= n,
            n == line@.len(),
            texts(out@) + words(line@.skip(i as int)) == words(line@),
        decreases n - i,
    {
        let ghost rest = line@.skip(i as int);
        if is_blank_char(line.get_char(i)) {
            assert(rest.skip(1) =~= line@.skip(i + 1));
            i += 1;
        } else {
            let start = i;
            let mut j: usize = i + 1;
            while j < n && !is_blank_char(line.get_char(j))
                invariant
                    start < j <= n,
                    n == line@.len(),
                    forall|k: int| start <= k < j ==> !is_blank(line@[k]),
                decreases n - j,
            {
                j += 1;
            }
            let word = line.substring_char(start, j).to_owned();
            let ghost before = out@;
            out.push(word);
            proof {
                lemma_word_len_run(rest, (j - start) as nat);
                lemma_texts_push(before, word);
                assert(rest.take(j - start) =~= line@.subrange(start as int, j as int));
                assert(rest.skip(j - start) =~= line@.skip(j as int));
                assert(texts(out@) + words(line@.skip(j as int)) =~= texts(before) + words(rest));
            }
            i = j;
        }
    }
    assert(texts(out@) + words(line@.skip(n as int)) =~= texts(out@));
    out
}

} // verus!
