use vstd::prelude::*;
use crate::tokenizer::{
    continues, is_digit, is_whitespace, is_word_start, lex, lex_from, prepend, run_length, scan,
    string_length, token_at, Run, Scan, TokenType, TokenView, TokenizationErrorView,
};

verus! {

/// The kind and the text of a token, without its span.
pub open spec fn shape(token: TokenView) -> (TokenType, Seq<char>) {
    (token.token_type, token.text)
}

/// The kinds and texts of a list of tokens.
pub open spec fn shapes(tokens: Seq<TokenView>) -> Seq<(TokenType, Seq<char>)> {
    tokens.map_values(|t: TokenView| shape(t))
}

/// Whether a token of this kind ends where it ended before when the
/// character `w` is put directly behind it. A type symbol needs the letter
/// that follows it, and a comment runs on to the next line feed.
pub open spec fn keeps_extent(kind: TokenType, w: char) -> bool {
    kind != TokenType::Symbol && (kind != TokenType::Comment || w == '\n')
}

/// Place `p` lies between tokens for the lexer that reads `s` from place `i`:
/// the lexer comes to stand at `p` before a token, behind one or in the
/// whitespace between two, and the token that ends at `p`, if there is one,
/// keeps its extent when `w` follows it.
pub open spec fn between_tokens(s: Seq<char>, i: int, p: int, w: char) -> bool
    decreases
        (if i < s.len() {
            s.len() - i
        } else {
            0
        }),
{
    if i == p {
        true
    } else if i < 0 || i >= s.len() || i > p {
        false
    } else {
        match scan(s, i) {
            Scan::Skip => between_tokens(s, i + 1, p, w),
            Scan::Token { kind, extra } => if i + 1 + extra == p {
                keeps_extent(kind, w)
            } else {
                between_tokens(s, i + 1 + extra, p, w)
            },
            Scan::Failure { .. } => false,
        }
    }
}

/// `t` is `s` with the character `w` put in at place `p`.
spec fn widened(s: Seq<char>, t: Seq<char>, p: int, w: char) -> bool {
    &&& 0 <= p <= s.len()
    &&& t.len() == s.len() + 1
    &&& t[p] == w
    &&& forall|k: int| 0 <= k < p ==> #[trigger] t[k] == s[k]
    &&& forall|k: int| p <= k < s.len() ==> t[k + 1] == #[trigger] s[k]
}

/// Both sources give tokens, of the same kinds and texts.
spec fn same_shapes(
    a: Result<Seq<TokenView>, TokenizationErrorView>,
    b: Result<Seq<TokenView>, TokenizationErrorView>,
) -> bool {
    a is Ok && b is Ok && shapes(a->Ok_0) == shapes(b->Ok_0)
}

proof fn lemma_run_shifted(s: Seq<char>, t: Seq<char>, p: int, w: char, from: int, run: Run)
    requires
        widened(s, t, p, w),
        p <= from,
    ensures
        run_length(t, from + 1, run) == run_length(s, from, run),
    decreases s.len() - from,
{
    if from < s.len() {
        assert(t[from + 1] == s[from]);
        lemma_run_shifted(s, t, p, w, from + 1, run);
    }
}

proof fn lemma_string_shifted(s: Seq<char>, t: Seq<char>, p: int, w: char, from: int)
    requires
        widened(s, t, p, w),
        p <= from,
    ensures
        string_length(t, from + 1) == string_length(s, from),
    decreases s.len() - from,
{
    if from < s.len() {
        assert(t[from + 1] == s[from]);
        if s[from] == '"' {
        } else if s[from] == '\\' {
            if from + 1 < s.len() {
                lemma_string_shifted(s, t, p, w, from + 2);
            }
        } else {
            lemma_string_shifted(s, t, p, w, from + 1);
        }
    }
}

proof fn lemma_scan_shifted(s: Seq<char>, t: Seq<char>, p: int, w: char, i: int)
    requires
        widened(s, t, p, w),
        p <= i < s.len(),
    ensures
        scan(t, i + 1) == scan(s, i),
{
    assert(t[i + 1] == s[i]);
    lemma_run_shifted(s, t, p, w, i + 1, Run::Number);
    lemma_run_shifted(s, t, p, w, i + 1, Run::Word);
    lemma_run_shifted(s, t, p, w, i + 1, Run::Comment);
    lemma_string_shifted(s, t, p, w, i + 1);
    if i + 1 < s.len() {
        assert(t[i + 2] == s[i + 1]);
    }
}

/// Putting a token in front keeps two lists alike that were alike.
proof fn lemma_same_shapes_step(
    a: TokenView,
    b: TokenView,
    x: Result<Seq<TokenView>, TokenizationErrorView>,
    y: Result<Seq<TokenView>, TokenizationErrorView>,
)
    requires
        shape(a) == shape(b),
        same_shapes(x, y),
    ensures
        same_shapes(prepend(seq![a], x), prepend(seq![b], y)),
{
    assert(shapes(seq![a] + x->Ok_0) =~= seq![shape(a)] + shapes(x->Ok_0));
    assert(shapes(seq![b] + y->Ok_0) =~= seq![shape(b)] + shapes(y->Ok_0));
}

/// Behind the place of the new character the lexer reads what it read before.
proof fn lemma_lex_shifted(s: Seq<char>, t: Seq<char>, p: int, w: char, i: int)
    requires
        widened(s, t, p, w),
        p <= i <= s.len(),
        lex_from(s, i) is Ok,
    ensures
        same_shapes(lex_from(t, i + 1), lex_from(s, i)),
    decreases s.len() - i,
{
    if i < s.len() {
        lemma_scan_shifted(s, t, p, w, i);
        match scan(s, i) {
            Scan::Skip => {
                lemma_lex_shifted(s, t, p, w, i + 1);
            },
            Scan::Token { kind, extra } => {
                lemma_token_within(s, i);
                lemma_lex_shifted(s, t, p, w, i + 1 + extra);
                assert(t.subrange(i + 1, i + 2 + extra) =~= s.subrange(i, i + 1 + extra));
                lemma_same_shapes_step(
                    token_at(t, i + 1, kind, extra),
                    token_at(s, i, kind, extra),
                    lex_from(t, i + 2 + extra),
                    lex_from(s, i + 1 + extra),
                );
            },
            Scan::Failure { .. } => {},
        }
    }
}

/// A run ends within the source.
proof fn lemma_run_within(s: Seq<char>, from: int, run: Run)
    requires
        0 <= from <= s.len(),
    ensures
        from + run_length(s, from, run) <= s.len(),
        forall|k: int| from <= k < from + run_length(s, from, run) ==> continues(run, #[trigger] s[k]),
        from + run_length(s, from, run) < s.len() ==> !continues(
            run,
            s[from + run_length(s, from, run)],
        ),
    decreases s.len() - from,
{
    if from < s.len() && continues(run, s[from]) {
        lemma_run_within(s, from + 1, run);
    }
}

/// A string literal ends within the source.
proof fn lemma_string_within(s: Seq<char>, from: int)
    requires
        0 <= from,
    ensures
        string_length(s, from) is Some ==> from + string_length(s, from)->Some_0 <= s.len(),
    decreases s.len() - from,
{
    if from < s.len() {
        if s[from] == '"' {
        } else if s[from] == '\\' {
            if from + 1 < s.len() {
                lemma_string_within(s, from + 2);
            }
        } else {
            lemma_string_within(s, from + 1);
        }
    }
}

/// A token ends within the source.
pub proof fn lemma_token_within(s: Seq<char>, i: int)
    requires
        0 <= i < s.len(),
    ensures
        match scan(s, i) {
            Scan::Token { kind, extra } => i + 1 + extra <= s.len(),
            _ => true,
        },
{
    lemma_run_within(s, i + 1, Run::Number);
    lemma_run_within(s, i + 1, Run::Word);
    lemma_run_within(s, i + 1, Run::Comment);
    lemma_string_within(s, i + 1);
}

proof fn lemma_run_kept(s: Seq<char>, t: Seq<char>, p: int, w: char, from: int, run: Run)
    requires
        widened(s, t, p, w),
        0 <= from,
        from + run_length(s, from, run) <= p,
        from + run_length(s, from, run) == p ==> !continues(run, w),
    ensures
        run_length(t, from, run) == run_length(s, from, run),
    decreases s.len() - from,
{
    if from < s.len() && continues(run, s[from]) {
        assert(t[from] == s[from]);
        lemma_run_kept(s, t, p, w, from + 1, run);
    } else if from < p {
        assert(t[from] == s[from]);
    }
}

proof fn lemma_string_kept(s: Seq<char>, t: Seq<char>, p: int, w: char, from: int)
    requires
        widened(s, t, p, w),
        0 <= from,
        string_length(s, from) is Some,
        from + string_length(s, from)->Some_0 <= p,
    ensures
        string_length(t, from) == string_length(s, from),
    decreases s.len() - from,
{
    assert(t[from] == s[from]);
    if s[from] == '"' {
    } else if s[from] == '\\' {
        lemma_string_kept(s, t, p, w, from + 2);
    } else {
        lemma_string_kept(s, t, p, w, from + 1);
    }
}

/// A token that ends before the new character, or at it and keeps its
/// extent, is read as before.
proof fn lemma_scan_kept(s: Seq<char>, t: Seq<char>, p: int, w: char, i: int)
    requires
        widened(s, t, p, w),
        is_whitespace(w),
        0 <= i < p,
        match scan(s, i) {
            Scan::Skip => true,
            Scan::Token { kind, extra } => i + 1 + extra <= p && (i + 1 + extra == p
                ==> keeps_extent(kind, w)),
            Scan::Failure { .. } => false,
        },
    ensures
        scan(t, i) == scan(s, i),
{
    assert(t[i] == s[i]);
    let c = s[i];
    if is_digit(c) {
        lemma_run_kept(s, t, p, w, i + 1, Run::Number);
    } else if is_word_start(c) {
        lemma_run_kept(s, t, p, w, i + 1, Run::Word);
    } else if c == '"' {
        lemma_string_kept(s, t, p, w, i + 1);
    } else if c == '/' {
        if i + 1 < s.len() && s[i + 1] == '/' {
            assert(i + 1 < p);
            assert(t[i + 1] == s[i + 1]);
            lemma_run_kept(s, t, p, w, i + 1, Run::Comment);
        } else {
            if i + 1 < p {
                assert(t[i + 1] == s[i + 1]);
            }
        }
    } else if c == '=' {
    } else if c == ':' {
        assert(i + 1 < p);
        assert(t[i + 1] == s[i + 1]);
    }
}

/// Up to the place of the new character the lexer reads what it read before,
/// then it skips the new character.
proof fn lemma_lex_kept(s: Seq<char>, t: Seq<char>, p: int, w: char, i: int)
    requires
        widened(s, t, p, w),
        is_whitespace(w),
        0 <= i <= p,
        between_tokens(s, i, p, w),
        lex_from(s, i) is Ok,
    ensures
        same_shapes(lex_from(t, i), lex_from(s, i)),
    decreases s.len() - i,
{
    if i == p {
        assert(scan(t, p) == Scan::Skip);
        lemma_lex_shifted(s, t, p, w, p);
    } else {
        match scan(s, i) {
            Scan::Skip => {
                lemma_scan_kept(s, t, p, w, i);
                lemma_lex_kept(s, t, p, w, i + 1);
            },
            Scan::Token { kind, extra } => {
                reveal_with_fuel(between_tokens, 2);
                lemma_token_within(s, i);
                lemma_scan_kept(s, t, p, w, i);
                lemma_lex_kept(s, t, p, w, i + 1 + extra);
                assert(t.subrange(i, i + 1 + extra) =~= s.subrange(i, i + 1 + extra));
                lemma_same_shapes_step(
                    token_at(t, i, kind, extra),
                    token_at(s, i, kind, extra),
                    lex_from(t, i + 1 + extra),
                    lex_from(s, i + 1 + extra),
                );
            },
            Scan::Failure { .. } => {},
        }
    }
}

/// More whitespace between tokens changes no token's kind or text: where a
/// source gives tokens and a space, tab, carriage return or line feed is put
/// in at a place between two of them, before the first or behind the last,
/// the new source gives tokens of the same kinds and texts, in the same order.
/// Only their spans may differ. Two places are left out, since there the new
/// character changes what the lexer reads: directly behind a type symbol, and
/// directly behind a comment unless the new character is a line feed.
pub proof fn lemma_whitespace_between_tokens(s: Seq<char>, p: int, w: char)
    requires
        0 <= p <= s.len(),
        is_whitespace(w),
        between_tokens(s, 0, p, w),
        lex(s) is Ok,
    ensures
        lex(s.insert(p, w)) is Ok,
        shapes(lex(s.insert(p, w))->Ok_0) == shapes(lex(s)->Ok_0),
{
    s.insert_ensures(p, w);
    lemma_lex_kept(s, s.insert(p, w), p, w, 0);
}

} // verus!
