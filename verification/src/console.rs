//! Quoting of command arguments for a shell.
use vstd::prelude::*;

verus! {

/// A character that needs no quoting in a shell.
pub open spec fn whitelisted_spec(ch: char) -> bool {
    ||| ('a' <= ch && ch <= 'z')
    ||| ('A' <= ch && ch <= 'Z')
    ||| ('0' <= ch && ch <= '9')
    ||| ch == '-'
    ||| ch == '_'
    ||| ch == '='
    ||| ch == '/'
    ||| ch == ','
    ||| ch == '.'
    ||| ch == '+'
}

/// A character that means something to a POSIX shell outside quotes: an
/// operator, a quote or escape, an expansion, a pattern, a comment, a word
/// separator, or history or brace expansion of bash.
pub open spec fn shell_special(ch: char) -> bool {
    ||| ch == '|' || ch == '&' || ch == ';' || ch == '<' || ch == '>' || ch == '(' || ch == ')'
    ||| ch == '$' || ch == '`' || ch == '\\' || ch == '"' || ch == '\''
    ||| ch == ' ' || ch == '\t' || ch == '\n'
    ||| ch == '*' || ch == '?' || ch == '[' || ch == ']' || ch == '#' || ch == '~'
    ||| ch == '!' || ch == '{' || ch == '}'
}

/// Whether `ch` needs no quoting in a shell: no character that needs none
/// means anything to the shell, and every ASCII letter and digit needs none.
pub fn whitelisted(ch: char) -> (r: bool)
    ensures
        r == whitelisted_spec(ch),
        r ==> !shell_special(ch),
        ('a' <= ch <= 'z') || ('A' <= ch <= 'Z') || ('0' <= ch <= '9') ==> r,
{
    proof {
        lemma_whitelisted_not_special(ch);
    }
    ('a' <= ch && ch <= 'z') || ('A' <= ch && ch <= 'Z') || ('0' <= ch && ch <= '9') || ch == '-' || ch == '_'
        || ch == '=' || ch == '/' || ch == ',' || ch == '.' || ch == '+'
}

/// `ch` inside single quotes: a quote or an exclamation mark closes the
/// quotes, is escaped with a backslash and the quotes open again.
pub open spec fn escape_char(ch: char) -> Seq<char> {
    if ch == '\'' || ch == '!' {
        seq!['\'', '\\', ch, '\'']
    } else {
        seq![ch]
    }
}

/// The characters of `s`, each as `escape_char` gives it.
pub open spec fn escape_chars(s: Seq<char>) -> Seq<char>
    decreases s.len(),
{
    if s.len() == 0 {
        Seq::empty()
    } else {
        escape_chars(s.drop_last()) + escape_char(s.last())
    }
}

/// `s` as `shell_escape` quotes it: unchanged if it is not empty and every
/// character needs no quoting, else in single quotes.
pub open spec fn shell_escape_spec(s: Seq<char>) -> Seq<char> {
    if s.len() > 0 && forall|i: int| 0 <= i < s.len() ==> #[trigger] whitelisted_spec(s[i]) {
        s
    } else {
        seq!['\''] + escape_chars(s) + seq!['\'']
    }
}

/// The text a POSIX shell reads from `w` as the rest of one word, outside
/// single quotes (`quoted` false) or inside them: `None` if `w` is not part
/// of one word (it holds an unquoted character that would end the word or
/// mean something to the shell, ends inside quotes, or ends in a lone
/// backslash).  Outside quotes a backslash takes the next character as it
/// is (a backslash before a newline joins the lines); inside quotes every
/// character but the closing quote stands for itself.
pub open spec fn shell_word_from(w: Seq<char>, quoted: bool) -> Option<Seq<char>>
    decreases w.len(),
{
    if w.len() == 0 {
        if quoted {
            None
        } else {
            Some(Seq::empty())
        }
    } else if quoted {
        if w[0] == '\'' {
            shell_word_from(w.drop_first(), false)
        } else {
            match shell_word_from(w.drop_first(), true) {
                Some(rest) => Some(seq![w[0]] + rest),
                None => None,
            }
        }
    } else if w[0] == '\'' {
        shell_word_from(w.drop_first(), true)
    } else if w[0] == '\\' {
        if w.len() < 2 {
            None
        } else if w[1] == '\n' {
            shell_word_from(w.subrange(2, w.len() as int), false)
        } else {
            match shell_word_from(w.subrange(2, w.len() as int), false) {
                Some(rest) => Some(seq![w[1]] + rest),
                None => None,
            }
        }
    } else if !shell_special(w[0]) {
        match shell_word_from(w.drop_first(), false) {
            Some(rest) => Some(seq![w[0]] + rest),
            None => None,
        }
    } else {
        None
    }
}

/// No character that needs no quoting means anything to the shell, so
/// outside quotes it reads as itself.
pub proof fn lemma_whitelisted_not_special(ch: char)
    ensures
        whitelisted_spec(ch) ==> !shell_special(ch),
        whitelisted_spec(ch) ==> shell_word_from(seq![ch], false) == Some(seq![ch]),
{
    if whitelisted_spec(ch) {
        let w = seq![ch];
        assert(w[0] == ch && w.len() == 1);
        assert(w.drop_first() =~= Seq::<char>::empty());
        assert(shell_word_from(Seq::<char>::empty(), false) == Some(Seq::<char>::empty()));
        assert(seq![ch] + Seq::<char>::empty() =~= seq![ch]);
        assert(shell_word_from(w, false) == Some(seq![ch] + Seq::<char>::empty()));
    }
}

/// The one word a POSIX shell reads from `w`, if `w` is one word.
pub open spec fn shell_word(w: Seq<char>) -> Option<Seq<char>> {
    if w.len() == 0 {
        None
    } else {
        shell_word_from(w, false)
    }
}

/// Characters that need no quoting read as themselves.
proof fn lemma_plain_word(s: Seq<char>)
    requires
        forall|i: int| 0 <= i < s.len() ==> #[trigger] whitelisted_spec(s[i]),
    ensures
        shell_word_from(s, false) == Some(s),
    decreases s.len(),
{
    if s.len() > 0 {
        assert(whitelisted_spec(s[0]));
        lemma_whitelisted_not_special(s[0]);
        assert(s[0] != '\'' && s[0] != '\\');
        lemma_plain_word(s.drop_first());
        assert(seq![s[0]] + s.drop_first() =~= s);
    }
}

/// Escaping a string character by character, from its first character.
proof fn lemma_escape_chars_first(s: Seq<char>)
    requires
        s.len() > 0,
    ensures
        escape_chars(s) == escape_char(s[0]) + escape_chars(s.drop_first()),
    decreases s.len(),
{
    if s.len() == 1 {
        assert(s.drop_last().len() == 0);
        assert(escape_chars(s.drop_last()) == Seq::<char>::empty());
        assert(s.drop_first().len() == 0);
        assert(escape_chars(s.drop_first()) == Seq::<char>::empty());
        assert(escape_chars(s) =~= escape_char(s[0]) + escape_chars(s.drop_first()));
    } else {
        lemma_escape_chars_first(s.drop_last());
        assert(s.drop_last().drop_first() =~= s.drop_first().drop_last());
        assert(s.drop_first().last() == s.last());
        assert(escape_chars(s.drop_first()) == escape_chars(s.drop_first().drop_last()) + escape_char(s.drop_first().last()));
        assert(escape_chars(s) =~= escape_char(s[0]) + escape_chars(s.drop_first()));
    }
}

/// Inside single quotes, the escaped characters of `s` and the closing
/// quote read as `s`, followed by what the rest `t` reads as.
proof fn lemma_quoted_word(s: Seq<char>, t: Seq<char>)
    ensures
        shell_word_from(escape_chars(s) + seq!['\''] + t, true) == (match shell_word_from(t, false) {
            Some(rest) => Some(s + rest),
            None => None,
        }),
    decreases s.len(),
{
    let w = escape_chars(s) + seq!['\''] + t;
    if s.len() == 0 {
        assert(escape_chars(s) == Seq::<char>::empty());
        assert(w.drop_first() =~= t);
        if let Some(rest) = shell_word_from(t, false) {
            assert(s + rest =~= rest);
        }
    } else {
        let c = s[0];
        let u = escape_chars(s.drop_first()) + seq!['\''] + t;
        lemma_escape_chars_first(s);
        lemma_quoted_word(s.drop_first(), t);
        assert(w =~= escape_char(c) + u);
        if c == '\'' || c == '!' {
            assert(escape_char(c) == seq!['\'', '\\', c, '\'']);
            assert(w[0] == '\'');
            let v = w.drop_first();
            assert(v =~= seq!['\\', c, '\''] + u);
            assert(shell_word_from(w, true) == shell_word_from(v, false));
            let x = v.subrange(2, v.len() as int);
            assert(x =~= seq!['\''] + u);
            assert(v[0] == '\\' && v[1] == c && c != '\n');
            assert(shell_word_from(v, false) == (match shell_word_from(x, false) {
                Some(rest) => Some(seq![c] + rest),
                None => None,
            }));
            assert(x.drop_first() =~= u);
            assert(shell_word_from(x, false) == shell_word_from(u, true));
            if let Some(rest) = shell_word_from(t, false) {
                assert(seq![c] + (s.drop_first() + rest) =~= s + rest);
            }
        } else {
            assert(w[0] == c);
            assert(w.drop_first() =~= u);
            if let Some(rest) = shell_word_from(t, false) {
                assert(seq![c] + (s.drop_first() + rest) =~= s + rest);
            }
        }
    }
}

/// A POSIX shell reads what `shell_escape` gives for `s` as one word whose
/// text is `s`.
pub proof fn lemma_shell_escape_one_word(s: Seq<char>)
    ensures
        shell_word(shell_escape_spec(s)) == Some(s),
{
    if s.len() > 0 && forall|i: int| 0 <= i < s.len() ==> #[trigger] whitelisted_spec(s[i]) {
        lemma_plain_word(s);
    } else {
        let w = seq!['\''] + escape_chars(s) + seq!['\''];
        lemma_quoted_word(s, Seq::empty());
        assert(w.drop_first() =~= escape_chars(s) + seq!['\''] + Seq::<char>::empty());
        assert(s + Seq::<char>::empty() =~= s);
    }
}

/// Appends `ch` to `s`.
///
/// Trusted: calls `String::push`, which its documentation says appends the
/// character to the end of the string.
#[verifier::external_body]
fn push_char(s: &mut String, ch: char)
    ensures
        final(s)@ == old(s)@.push(ch),
{
    s.push(ch);
}

/// Escape characters that may have special meaning in a shell, including
/// spaces: the string is put in single quotes unless it is not empty and
/// no character of it needs quoting.
pub fn shell_escape(s: &str) -> (r: String)
    ensures
        r@ == shell_escape_spec(s@),
{
    let mut all = true;
    for ch in iter: s.chars()
        invariant
            iter.seq() == s@,
            all <==> forall|i: int| 0 <= i < iter.index() ==> #[trigger] whitelisted_spec(s@[i]),
    {
        if !whitelisted(ch) {
            all = false;
        }
    }
    if !s.is_empty() && all {
        return s.to_owned();
    }
    let mut es = String::new();
    push_char(&mut es, '\'');
    for ch in iter: s.chars()
        invariant
            iter.seq() == s@,
            es@ == seq!['\''] + escape_chars(s@.take(iter.index())),
    {
        proof {
            let k = iter.index();
            assert(s@.take(k + 1).drop_last() =~= s@.take(k));
            assert(s@.take(k + 1).last() == ch);
        }
        if ch == '\'' || ch == '!' {
            push_char(&mut es, '\'');
            push_char(&mut es, '\\');
            push_char(&mut es, ch);
            push_char(&mut es, '\'');
        } else {
            push_char(&mut es, ch);
        }
        proof {
            let k = iter.index();
            assert(es@ =~= seq!['\''] + escape_chars(s@.take(k + 1)));
        }
    }
    assert(s@.take(s@.len() as int) =~= s@);
    push_char(&mut es, '\'');
    assert(es@ =~= seq!['\''] + escape_chars(s@) + seq!['\'']);
    es
}

} // verus!
