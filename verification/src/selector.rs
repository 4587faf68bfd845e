//! The selector grammar.
//!
//! A selector is a line of text that names state channels of a block. It is
//! read as a list of tokens separated by white space. Each token stands for
//! zero or more channels, whatever the case of its letters, and the channels
//! of a selector are those of its tokens, in the order of the tokens.

use vstd::prelude::*;

verus! {

/// First coordinate of the position.
pub const PX: u8 = 0;

/// Second coordinate of the position.
pub const PY: u8 = 1;

/// Third coordinate of the position.
pub const PZ: u8 = 2;

/// First coordinate of the velocity.
pub const VX: u8 = 3;

/// Second coordinate of the velocity.
pub const VY: u8 = 4;

/// Third coordinate of the velocity.
pub const VZ: u8 = 5;

/// Number of state channels of a block.
pub const CHANNEL_COUNT: u8 = 6;

/// Whether `c` separates tokens: the characters with the Unicode property
/// `White_Space`.
pub open spec fn is_white_space(c: char) -> bool {
    let u = c as u32;
    ||| 0x09 <= u <= 0x0D
    ||| u == 0x20
    ||| u == 0x85
    ||| u == 0xA0
    ||| u == 0x1680
    ||| 0x2000 <= u <= 0x200A
    ||| u == 0x2028
    ||| u == 0x2029
    ||| u == 0x202F
    ||| u == 0x205F
    ||| u == 0x3000
}

/// The small letter of an ASCII capital; any other character is kept.
///
/// The letters that tokens are made of are ASCII, and no character outside
/// ASCII has one of them as its small letter, so this is all the folding
/// that reading tokens without regard to case asks for.
pub open spec fn lower(c: char) -> char {
    if 0x41 <= c as u32 <= 0x5A {
        ((c as u32) + 0x20) as char
    } else {
        c
    }
}

/// A token with each of its characters folded by `lower`.
pub open spec fn fold_case(token: Seq<char>) -> Seq<char> {
    Seq::new(token.len(), |i: int| lower(token[i]))
}

/// The channels that one token stands for. A token that is not in the
/// grammar stands for none.
pub open spec fn token_channels(token: Seq<char>) -> Seq<u8> {
    let t = fold_case(token);
    if t =~= seq!['_'] {
        seq![PX, PY, PZ, VX, VY, VZ]
    } else if t =~= seq!['p'] {
        seq![PX, PY, PZ]
    } else if t =~= seq!['v'] {
        seq![VX, VY, VZ]
    } else if t =~= seq!['p', 'x'] {
        seq![PX]
    } else if t =~= seq!['p', 'y'] {
        seq![PY]
    } else if t =~= seq!['p', 'z'] {
        seq![PZ]
    } else if t =~= seq!['v', 'x'] {
        seq![VX]
    } else if t =~= seq!['v', 'y'] {
        seq![VY]
    } else if t =~= seq!['v', 'z'] {
        seq![VZ]
    } else {
        seq![]
    }
}

/// Whether no character of `s` is white space.
pub open spec fn has_no_white_space(s: Seq<char>) -> bool {
    forall|i: int| 0 <= i < s.len() ==> !is_white_space(#[trigger] s[i])
}

/// Length of the longest prefix of `s` that holds no white space.
pub open spec fn token_len(s: Seq<char>) -> nat
    decreases s.len(),
{
    if s.len() == 0 || is_white_space(s[0]) {
        0
    } else {
        1 + token_len(s.drop_first())
    }
}

/// The tokens of `s`: its maximal runs of characters that are not white
/// space, from left to right.
pub open spec fn tokens(s: Seq<char>) -> Seq<Seq<char>>
    decreases s.len(),
    via tokens_decreases
{
    if s.len() == 0 {
        seq![]
    } else if is_white_space(s[0]) {
        tokens(s.drop_first())
    } else {
        seq![s.take(token_len(s) as int)] + tokens(s.skip(token_len(s) as int))
    }
}

#[via_fn]
proof fn tokens_decreases(s: Seq<char>) {
    lemma_token_len_bounds(s);
}

/// The channels of a list of tokens: those of each token, one token after
/// the other.
pub open spec fn expand(list: Seq<Seq<char>>) -> Seq<u8>
    decreases list.len(),
{
    if list.len() == 0 {
        seq![]
    } else {
        token_channels(list[0]) + expand(list.drop_first())
    }
}

/// The channels that a selector names.
pub open spec fn selector_channels(s: Seq<char>) -> Seq<u8> {
    expand(tokens(s))
}

/// The leading run without white space lies within `s`, and is empty only
/// where `s` is empty or begins with white space.
pub proof fn lemma_token_len_bounds(s: Seq<char>)
    ensures
        token_len(s) <= s.len(),
        token_len(s) == 0 <==> s.len() == 0 || is_white_space(s[0]),
        has_no_white_space(s.take(token_len(s) as int)),
        token_len(s) < s.len() ==> is_white_space(s[token_len(s) as int]),
    decreases s.len(),
{
    if s.len() == 0 || is_white_space(s[0]) {
    } else {
        let r = s.drop_first();
        lemma_token_len_bounds(r);
        let n = token_len(s) as int;
        assert forall|i: int| 0 <= i < n implies !is_white_space(#[trigger] s.take(n)[i]) by {
            if i > 0 {
                assert(s.take(n)[i] == r.take(n - 1)[i - 1]);
            }
        }
    }
}

/// Whether a cut between `a` and `b` falls between two tokens of `a + b`,
/// not inside one.
pub open spec fn token_boundary(a: Seq<char>, b: Seq<char>) -> bool {
    a.len() == 0 || b.len() == 0 || is_white_space(a.last()) || is_white_space(b.first())
}

/// The leading run of `a + b` ends where that of `a` ends, unless it is the
/// whole of `a`: then it goes on with the leading run of `b`.
pub proof fn lemma_token_len_append(a: Seq<char>, b: Seq<char>)
    ensures
        token_len(a + b) == if token_len(a) < a.len() {
            token_len(a)
        } else {
            a.len() + token_len(b)
        },
    decreases a.len(),
{
    lemma_token_len_bounds(a);
    if a.len() == 0 {
        assert(a + b =~= b);
    } else if is_white_space(a[0]) {
    } else {
        assert((a + b).drop_first() =~= a.drop_first() + b);
        lemma_token_len_append(a.drop_first(), b);
        lemma_token_len_bounds(a.drop_first());
    }
}

/// A text without white space that is not empty is one token.
pub proof fn lemma_tokens_of_token(t: Seq<char>)
    requires
        has_no_white_space(t),
    ensures
        tokens(t) == if t.len() == 0 {
            Seq::<Seq<char>>::empty()
        } else {
            seq![t]
        },
{
    if t.len() > 0 {
        lemma_token_len_bounds(t);
        let n = token_len(t) as int;
        assert(t.take(n) =~= t);
        assert(t.skip(n) =~= Seq::<char>::empty());
        assert(tokens(t.skip(n)) =~= Seq::<Seq<char>>::empty());
        assert(tokens(t) =~= seq![t]);
    }
}

/// Where a text is cut between two tokens, its tokens are those of the first
/// part and then those of the second.
pub proof fn lemma_tokens_split(a: Seq<char>, b: Seq<char>)
    requires
        token_boundary(a, b),
    ensures
        tokens(a + b) == tokens(a) + tokens(b),
    decreases a.len(),
{
    let s = a + b;
    if a.len() == 0 {
        assert(s =~= b);
        assert(tokens(a) + tokens(b) =~= tokens(b));
    } else if is_white_space(a[0]) {
        let r = a.drop_first();
        assert(s.drop_first() =~= r + b);
        if r.len() > 0 {
            assert(r.last() == a.last());
        }
        lemma_tokens_split(r, b);
    } else {
        lemma_token_len_bounds(a);
        lemma_token_len_bounds(b);
        lemma_token_len_append(a, b);
        let n = token_len(a) as int;
        if n < a.len() {
            let r = a.skip(n);
            assert(s.take(n) =~= a.take(n));
            assert(s.skip(n) =~= r + b);
            assert(r.last() == a.last());
            lemma_tokens_split(r, b);
            assert(tokens(s) =~= tokens(a) + tokens(b));
        } else {
            assert(a.take(n) =~= a);
            assert(has_no_white_space(a));
            assert(!is_white_space(a.last()));
            assert(token_len(b) == 0);
            assert(s.take(n) =~= a);
            assert(s.skip(n) =~= b);
            lemma_tokens_of_token(a);
        }
    }
}

/// Whether `t` can be a token: it holds at least one character, and none
/// that is white space.
pub open spec fn is_token(t: Seq<char>) -> bool {
    t.len() > 0 && has_no_white_space(t)
}

/// Every token holds at least one character, and none that is white space.
pub proof fn lemma_tokens_well_formed(s: Seq<char>)
    ensures
        forall|i: int| 0 <= i < tokens(s).len() ==> is_token(#[trigger] tokens(s)[i]),
    decreases s.len(),
{
    if s.len() == 0 {
        assert(tokens(s).len() == 0);
    } else if is_white_space(s[0]) {
        lemma_tokens_well_formed(s.drop_first());
        assert(tokens(s) == tokens(s.drop_first()));
    } else {
        lemma_token_len_bounds(s);
        let n = token_len(s) as int;
        let rest = tokens(s.skip(n));
        lemma_tokens_well_formed(s.skip(n));
        assert forall|i: int| 0 <= i < tokens(s).len() implies is_token(
            #[trigger] tokens(s)[i],
        ) by {
            if i == 0 {
                assert(tokens(s)[0] == s.take(n));
            } else {
                assert(tokens(s)[i] == rest[i - 1]);
            }
        }
    }
}

/// The channels of two lists of tokens, one after the other, are those of
/// the first and then those of the second.
pub proof fn lemma_expand_concat(x: Seq<Seq<char>>, y: Seq<Seq<char>>)
    ensures
        expand(x + y) == expand(x) + expand(y),
    decreases x.len(),
{
    if x.len() == 0 {
        assert(x + y =~= y);
        assert(expand(x) + expand(y) =~= expand(y));
    } else {
        assert((x + y).drop_first() =~= x.drop_first() + y);
        lemma_expand_concat(x.drop_first(), y);
        assert(expand(x + y) =~= expand(x) + expand(y));
    }
}

/// A text without white space names the channels of the token that it is.
pub proof fn lemma_channels_of_token(t: Seq<char>)
    requires
        has_no_white_space(t),
    ensures
        selector_channels(t) == token_channels(t),
{
    lemma_tokens_of_token(t);
    if t.len() > 0 {
        assert(seq![t].drop_first() =~= Seq::<Seq<char>>::empty());
        assert(expand(seq![t]) =~= token_channels(t)) by {
            reveal_with_fuel(expand, 2);
        }
    }
}

/// Where a selector is cut between two tokens, it names the channels of its
/// first part and then those of its second.
pub proof fn lemma_channels_split(a: Seq<char>, b: Seq<char>)
    requires
        token_boundary(a, b),
    ensures
        selector_channels(a + b) == selector_channels(a) + selector_channels(b),
{
    lemma_tokens_split(a, b);
    lemma_expand_concat(tokens(a), tokens(b));
}

/// Whether every index of `channels` is that of a state channel.
pub open spec fn all_channels(channels: Seq<u8>) -> bool {
    forall|i: int| 0 <= i < channels.len() ==> #[trigger] channels[i] < CHANNEL_COUNT
}

/// A list of tokens stands for state channels only.
pub proof fn lemma_expand_in_range(list: Seq<Seq<char>>)
    ensures
        all_channels(expand(list)),
    decreases list.len(),
{
    if list.len() > 0 {
        lemma_expand_in_range(list.drop_first());
    }
}

/// A selector names state channels only, whatever it holds.
pub proof fn lemma_channels_in_range(s: Seq<char>)
    ensures
        all_channels(selector_channels(s)),
{
    lemma_expand_in_range(tokens(s));
}

/// A token that stands for no channel can be taken out of a selector: the
/// selector names the same channels without it.
///
/// The token stands between `before` and `after`, apart from the tokens of
/// both.
pub proof fn lemma_unknown_token_ignored(before: Seq<char>, token: Seq<char>, after: Seq<char>)
    requires
        has_no_white_space(token),
        token_channels(token).len() == 0,
        before.len() == 0 || is_white_space(before.last()),
        after.len() == 0 || is_white_space(after.first()),
    ensures
        selector_channels(before + token + after) == selector_channels(before + after),
{
    lemma_channels_split(before, token);
    lemma_channels_split(before + token, after);
    lemma_channels_split(before, after);
    lemma_channels_of_token(token);
    assert(selector_channels(before) + token_channels(token) =~= selector_channels(before));
}

/// Folding the case of a character neither makes nor unmakes white space.
pub proof fn lemma_lower_keeps_white_space(c: char)
    ensures
        is_white_space(lower(c)) == is_white_space(c),
        lower(lower(c)) == lower(c),
{
}

/// Folding the case of a text folds each of its tokens and leaves their
/// number as it is.
pub proof fn lemma_tokens_fold_case(s: Seq<char>)
    ensures
        tokens(fold_case(s)).len() == tokens(s).len(),
        forall|i: int|
            0 <= i < tokens(s).len() ==> #[trigger] tokens(fold_case(s))[i] == fold_case(
                tokens(s)[i],
            ),
    decreases s.len(),
{
    let f = fold_case(s);
    if s.len() == 0 {
        assert(tokens(s).len() == 0);
        assert(tokens(f).len() == 0);
    } else {
        lemma_lower_keeps_white_space(s[0]);
        if is_white_space(s[0]) {
            assert(f.drop_first() =~= fold_case(s.drop_first()));
            lemma_tokens_fold_case(s.drop_first());
            assert(tokens(s) == tokens(s.drop_first()));
            assert(tokens(f) == tokens(f.drop_first()));
        } else {
            lemma_token_len_fold_case(s);
            lemma_token_len_bounds(s);
            let n = token_len(s) as int;
            assert(f.take(n) =~= fold_case(s.take(n)));
            assert(f.skip(n) =~= fold_case(s.skip(n)));
            lemma_tokens_fold_case(s.skip(n));
            let rest = tokens(s.skip(n));
            let rest_f = tokens(f.skip(n));
            assert(tokens(s) == seq![s.take(n)] + rest);
            assert(tokens(f) == seq![f.take(n)] + rest_f);
            assert forall|i: int| 0 <= i < tokens(s).len() implies #[trigger] tokens(f)[i]
                == fold_case(tokens(s)[i]) by {
                if i > 0 {
                    assert(tokens(s)[i] == rest[i - 1]);
                    assert(tokens(f)[i] == rest_f[i - 1]);
                }
            }
        }
    }
}

/// Folding the case of a text leaves the length of its leading run without
/// white space as it is.
pub proof fn lemma_token_len_fold_case(s: Seq<char>)
    ensures
        token_len(fold_case(s)) == token_len(s),
    decreases s.len(),
{
    if s.len() > 0 {
        lemma_lower_keeps_white_space(s[0]);
        if !is_white_space(s[0]) {
            assert(fold_case(s).drop_first() =~= fold_case(s.drop_first()));
            lemma_token_len_fold_case(s.drop_first());
        }
    }
}

/// A token stands for the same channels whatever the case of its letters.
pub proof fn lemma_token_case_insensitive(token: Seq<char>)
    ensures
        token_channels(fold_case(token)) == token_channels(token),
{
    assert forall|i: int| 0 <= i < token.len() implies lower(lower(token[i])) == lower(
        token[i],
    ) by {
        lemma_lower_keeps_white_space(token[i]);
    }
    assert(fold_case(fold_case(token)) =~= fold_case(token));
}

/// A selector names the same channels whatever the case of its letters.
pub proof fn lemma_case_insensitive(s: Seq<char>)
    ensures
        selector_channels(fold_case(s)) == selector_channels(s),
{
    lemma_tokens_fold_case(s);
    lemma_expand_fold_case(tokens(s), tokens(fold_case(s)));
}

/// Two lists of tokens that differ only in the case of their letters stand
/// for the same channels.
pub proof fn lemma_expand_fold_case(x: Seq<Seq<char>>, y: Seq<Seq<char>>)
    requires
        x.len() == y.len(),
        forall|i: int| 0 <= i < x.len() ==> #[trigger] y[i] == fold_case(x[i]),
    ensures
        expand(y) == expand(x),
    decreases x.len(),
{
    if x.len() > 0 {
        lemma_token_case_insensitive(x[0]);
        assert forall|i: int| 0 <= i < x.drop_first().len() implies #[trigger] y.drop_first()[i]
            == fold_case(x.drop_first()[i]) by {
            assert(y.drop_first()[i] == y[i + 1]);
        }
        lemma_expand_fold_case(x.drop_first(), y.drop_first());
    }
}

/// Decides `is_white_space`.
pub fn white_space(c: char) -> (b: bool)
    ensures
        b == is_white_space(c),
{
    let u: u32 = c as u32;
    (0x09 <= u && u <= 0x0D) || u == 0x20 || u == 0x85 || u == 0xA0 || u == 0x1680 || (0x2000 <= u
        && u <= 0x200A) || u == 0x2028 || u == 0x2029 || u == 0x202F || u == 0x205F || u == 0x3000
}

/// Computes `lower`.
pub fn to_lower(c: char) -> (r: char)
    ensures
        r == lower(c),
{
    let u: u32 = c as u32;
    if 0x41 <= u && u <= 0x5A {
        let small: u8 = (u + 0x20) as u8;
        small as char
    } else {
        c
    }
}

/// Appends to `data_index` the channels that `token` stands for.
pub fn push_token_channels(token: &Vec<char>, data_index: &mut Vec<u8>)
    ensures
        final(data_index)@ == old(data_index)@ + token_channels(token@),
{
    let ghost t = fold_case(token@);
    if token.len() == 1 {
        let a = to_lower(token[0]);
        assert(t[0] == a);
        if a == '_' {
            data_index.push(PX);
            data_index.push(PY);
            data_index.push(PZ);
            data_index.push(VX);
            data_index.push(VY);
            data_index.push(VZ);
        } else if a == 'p' {
            data_index.push(PX);
            data_index.push(PY);
            data_index.push(PZ);
        } else if a == 'v' {
            data_index.push(VX);
            data_index.push(VY);
            data_index.push(VZ);
        }
    } else if token.len() == 2 {
        let a = to_lower(token[0]);
        let b = to_lower(token[1]);
        assert(t[0] == a && t[1] == b);
        if a == 'p' {
            if b == 'x' {
                data_index.push(PX);
            } else if b == 'y' {
                data_index.push(PY);
            } else if b == 'z' {
                data_index.push(PZ);
            }
        } else if a == 'v' {
            if b == 'x' {
                data_index.push(VX);
            } else if b == 'y' {
                data_index.push(VY);
            } else if b == 'z' {
                data_index.push(VZ);
            }
        }
    }
    assert(data_index@ =~= old(data_index)@ + token_channels(token@));
}

} // verus!
