use vstd::prelude::*;

verus! {

/// What `str::to_lowercase` makes of a text.
pub uninterp spec fn lowercase(text: Seq<char>) -> Seq<char>;

/// What `char::to_uppercase` makes of a character (it may take several
/// characters to write).
pub uninterp spec fn uppercase_of_char(c: char) -> Seq<char>;

/// `str::to_lowercase`. The claim: the result is a function of the text
/// alone.
#[verifier::external_body]
fn text_to_lowercase(text: &str) -> (r: String)
    ensures
        r@ == lowercase(text@),
{
    text.to_lowercase()
}

/// `char::to_uppercase`, collected into a `String`. The claim: the result is
/// a function of the character alone.
#[verifier::external_body]
fn char_to_uppercase(c: char) -> (r: String)
    ensures
        r@ == uppercase_of_char(c),
{
    c.to_uppercase().collect()
}

/// `String::push`, which appends one character.
#[verifier::external_body]
pub(crate) fn push_char(text: &mut String, c: char)
    ensures
        final(text)@ == old(text)@.push(c),
{
    text.push(c)
}

/// Whether two texts hold the same characters.
pub fn same_text(a: &str, b: &str) -> (r: bool)
    ensures
        r == (a@ == b@),
{
    let n = a.unicode_len();
    let m = b.unicode_len();
    if n != m {
        return false;
    }
    let mut i: usize = 0;
    while i < n
        invariant
            n == a@.len(),
            m == b@.len(),
            n == m,
            i <= n,
            forall|k: int| 0 <= k < i ==> a@[k] == b@[k],
        decreases n - i,
    {
        if a.get_char(i) != b.get_char(i) {
            return false;
        }
        i = i + 1;
    }
    assert(a@ =~= b@);
    true
}

/// Joins `parts` with one `separator` between each two of them.
pub open spec fn join(parts: Seq<Seq<char>>, separator: char) -> Seq<char>
    decreases parts.len(),
{
    if parts.len() == 0 {
        seq![]
    } else if parts.len() == 1 {
        parts[0]
    } else {
        join(parts.drop_last(), separator).push(separator) + parts.last()
    }
}

/// The words of a text: its maximal runs of characters other than a space,
/// in order. Leading, trailing and repeated spaces separate no words.
pub open spec fn words(text: Seq<char>) -> Seq<Seq<char>>
    decreases text.len(),
{
    if text.len() == 0 {
        seq![]
    } else {
        let before = text.drop_last();
        let c = text.last();
        if c == ' ' {
            words(before)
        } else if before.len() == 0 || before.last() == ' ' {
            words(before).push(seq![c])
        } else {
            let ws = words(before);
            ws.update(ws.len() - 1, ws.last().push(c))
        }
    }
}

/// A word with its first character upper-cased.
pub open spec fn capitalize(word: Seq<char>) -> Seq<char> {
    if word.len() == 0 {
        word
    } else {
        uppercase_of_char(word[0]) + word.drop_first()
    }
}

/// The title case of a text: lower-cased, then each word capitalized and
/// the words joined by single spaces.
pub open spec fn title_case(text: Seq<char>) -> Seq<char> {
    join(words(lowercase(text)).map_values(|w: Seq<char>| capitalize(w)), ' ')
}

proof fn lemma_words_nonempty(text: Seq<char>)
    ensures
        forall|k: int| 0 <= k < words(text).len() ==> #[trigger] words(text)[k].len() > 0,
        text.len() > 0 && text.last() != ' ' ==> words(text).len() > 0,
    decreases text.len(),
{
    if text.len() > 0 {
        let before = text.drop_last();
        lemma_words_nonempty(before);
        let ws = words(before);
        let c = text.last();
        if c == ' ' {
        } else if before.len() == 0 || before.last() == ' ' {
            assert forall|k: int| 0 <= k < words(text).len() implies #[trigger] words(
                text,
            )[k].len() > 0 by {
                if k < ws.len() {
                    assert(words(text)[k] == ws[k]);
                }
            }
        } else {
            assert forall|k: int| 0 <= k < words(text).len() implies #[trigger] words(
                text,
            )[k].len() > 0 by {
                if k < ws.len() - 1 {
                    assert(words(text)[k] == ws[k]);
                }
            }
        }
    }
}

proof fn lemma_join_push(parts: Seq<Seq<char>>, part: Seq<char>, separator: char)
    ensures
        join(parts.push(part), separator) == if parts.len() == 0 {
            part
        } else {
            join(parts, separator).push(separator) + part
        },
{
    assert(parts.push(part).drop_last() =~= parts);
}

proof fn lemma_join_extend_last(parts: Seq<Seq<char>>, c: char, separator: char)
    requires
        parts.len() > 0,
    ensures
        join(parts.update(parts.len() - 1, parts.last().push(c)), separator) == join(
            parts,
            separator,
        ).push(c),
{
    let updated = parts.update(parts.len() - 1, parts.last().push(c));
    if parts.len() == 1 {
        assert(join(updated, separator) == updated[0]);
    } else {
        assert(updated.drop_last() =~= parts.drop_last());
        assert(join(parts, separator) == join(parts.drop_last(), separator).push(separator)
            + parts.last());
        assert(join(updated, separator) =~= join(parts, separator).push(c));
    }
}

/// Title-cases `text`: lower-cases it, upper-cases the first character of
/// each word and joins the words with single spaces.
pub fn to_title_case(text: &str) -> (r: String)
    ensures
        r@ == title_case(text@),
{
    let lower = text_to_lowercase(text);
    let ghost low = lower@;
    let lower_str = lower.as_str();
    let n = lower_str.unicode_len();
    let mut result = String::new();
    let mut in_word = false;
    let mut any_word = false;
    let ghost cap = |w: Seq<char>| capitalize(w);
    let mut i: usize = 0;
    while i < n
        invariant
            low == lower_str@,
            low == lowercase(text@),
            n == low.len(),
            i <= n,
            cap == (|w: Seq<char>| capitalize(w)),
            result@ == join(words(low.take(i as int)).map_values(cap), ' '),
            in_word == (i > 0 && low[i - 1] != ' '),
            any_word == (words(low.take(i as int)).len() > 0),
        decreases n - i,
    {
        let c = lower_str.get_char(i);
        let ghost before = low.take(i as int);
        let ghost after = low.take(i + 1);
        assert(after.drop_last() =~= before);
        assert(after.last() == c);
        proof {
            lemma_words_nonempty(before);
            lemma_words_nonempty(after);
        }
        if c == ' ' {
            in_word = false;
        } else if !in_word {
            let ghost ws = words(before);
            assert(words(after) == ws.push(seq![c]));
            assert(ws.push(seq![c]).map_values(cap) =~= ws.map_values(cap).push(cap(seq![c])));
            proof {
                lemma_join_push(ws.map_values(cap), cap(seq![c]), ' ');
            }
            assert(cap(seq![c]) =~= uppercase_of_char(c));
            if any_word {
                push_char(&mut result, ' ');
            }
            let upper = char_to_uppercase(c);
            result.append(upper.as_str());
            in_word = true;
            any_word = true;
        } else {
            let ghost ws = words(before);
            let ghost last = ws.last();
            assert(ws.len() > 0);
            assert(last.len() > 0);
            assert(words(after) == ws.update(ws.len() - 1, last.push(c)));
            assert(cap(last.push(c)) =~= cap(last).push(c));
            assert(ws.update(ws.len() - 1, last.push(c)).map_values(cap) =~= ws.map_values(
                cap,
            ).update(ws.len() - 1, ws.map_values(cap).last().push(c)));
            proof {
                lemma_join_extend_last(ws.map_values(cap), c, ' ');
            }
            push_char(&mut result, c);
        }
        i = i + 1;
    }
    assert(low.take(n as int) =~= low);
    result
}

/// Appends the characters of `more` to `text`.
pub fn append_text(text: &mut String, more: &str)
    ensures
        final(text)@ == old(text)@ + more@,
{
    let n = more.unicode_len();
    let mut i: usize = 0;
    while i < n
        invariant
            n == more@.len(),
            i <= n,
            text@ == old(text)@ + more@.take(i as int),
        decreases n - i,
    {
        let c = more.get_char(i);
        push_char(text, c);
        assert(more@.take(i + 1) =~= more@.take(i as int).push(c));
        i = i + 1;
    }
    assert(more@.take(n as int) =~= more@);
}

} // verus!
