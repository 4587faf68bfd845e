//! Formatting of the state channels that a selector names.

use crate::selector::{
    all_channels, has_no_white_space, is_white_space, lemma_channels_in_range,
    lemma_channels_of_token, lemma_channels_split, lemma_unknown_token_ignored,
    push_token_channels, selector_channels, token_boundary, token_channels, white_space,
};
use vstd::prelude::*;
use vstd::string::StringExecFns;

verus! {

/// One printed value: the text of the value between two spaces.
pub open spec fn field(value: Seq<char>) -> Seq<char> {
    seq![' '] + value + seq![' ']
}

/// The line printed for `channels`, where `values[i]` is the text of the
/// value of channel `i`: the fields of the channels in their order, with
/// nothing between them. An index that is no channel's prints nothing.
pub open spec fn rendered(channels: Seq<u8>, values: Seq<Seq<char>>) -> Seq<char>
    decreases channels.len(),
{
    if channels.len() == 0 {
        seq![]
    } else {
        let rest = rendered(channels.drop_last(), values);
        if channels.last() < values.len() {
            rest + field(values[channels.last() as int])
        } else {
            rest
        }
    }
}

/// The line printed for two lists of channels, one after the other, is the
/// line of the first and then the line of the second.
pub proof fn lemma_rendered_concat(a: Seq<u8>, b: Seq<u8>, values: Seq<Seq<char>>)
    ensures
        rendered(a + b, values) == rendered(a, values) + rendered(b, values),
    decreases b.len(),
{
    if b.len() == 0 {
        assert(a + b =~= a);
        assert(rendered(a, values) + rendered(b, values) =~= rendered(a, values));
    } else {
        assert((a + b).drop_last() =~= a + b.drop_last());
        assert((a + b).last() == b.last());
        lemma_rendered_concat(a, b.drop_last(), values);
        assert(rendered(a + b, values) =~= rendered(a, values) + rendered(b, values));
    }
}

/// A token that stands for no channel prints nothing: the line of a
/// selector is the same with the token and without it.
///
/// The token stands between `before` and `after`, apart from the tokens of
/// both.
pub proof fn lemma_unknown_token_prints_nothing(
    before: Seq<char>,
    token: Seq<char>,
    after: Seq<char>,
    values: Seq<Seq<char>>,
)
    requires
        has_no_white_space(token),
        token_channels(token).len() == 0,
        before.len() == 0 || is_white_space(before.last()),
        after.len() == 0 || is_white_space(after.first()),
    ensures
        rendered(selector_channels(before + token + after), values) == rendered(
            selector_channels(before + after),
            values,
        ),
{
    lemma_unknown_token_ignored(before, token, after);
}

/// The line of a selector cut between two tokens is the line of its first
/// part and then the line of its second.
pub proof fn lemma_rendered_split(a: Seq<char>, b: Seq<char>, values: Seq<Seq<char>>)
    requires
        token_boundary(a, b),
    ensures
        rendered(selector_channels(a + b), values) == rendered(selector_channels(a), values)
            + rendered(selector_channels(b), values),
{
    lemma_channels_split(a, b);
    lemma_rendered_concat(selector_channels(a), selector_channels(b), values);
}

/// What to print of a block: the channels to print, in order, and the number
/// of decimals of each value.
#[derive(Debug)]
pub struct BlockFormatter {
    /// Index of each channel to print.
    data_index: Vec<u8>,
    /// Number of decimals of a printed value.
    decimal: usize,
}

impl Clone for BlockFormatter {
    /// A formatter that prints the same channels with the same decimals.
    fn clone(&self) -> (copy: Self)
        ensures
            copy.channels() == self.channels(),
            copy.precision() == self.precision(),
    {
        proof {
            use_type_invariant(self);
        }
        BlockFormatter { data_index: self.data_index.clone(), decimal: self.decimal }
    }
}

impl BlockFormatter {
    /// Every index held is that of a state channel.
    #[verifier::type_invariant]
    spec fn well_formed(&self) -> bool {
        all_channels(self.data_index@)
    }

    /// The channels to print, in order.
    pub closed spec fn channels(&self) -> Seq<u8> {
        self.data_index@
    }

    /// The number of decimals of a printed value.
    pub closed spec fn precision(&self) -> usize {
        self.decimal
    }

    /// The formatter that prints the channels that `data_str` names, each
    /// value with `decimal` decimals.
    pub fn new(data_str: &str, decimal: usize) -> (formatter: Self)
        ensures
            formatter.channels() == selector_channels(data_str@),
            formatter.precision() == decimal,
    {
        let data_index = Self::parse_data_str(data_str);
        BlockFormatter { data_index, decimal }
    }

    /// The channels to print, in order.
    pub fn data_index(&self) -> (data_index: &Vec<u8>)
        ensures
            data_index@ == self.channels(),
            all_channels(data_index@),
    {
        proof {
            use_type_invariant(self);
        }
        &self.data_index
    }

    /// The number of decimals of a printed value.
    pub fn decimal(&self) -> (decimal: usize)
        ensures
            decimal == self.precision(),
    {
        self.decimal
    }

    /// Prints the selected channels of a block, where `values[i]` is the
    /// text of the value of channel `i`.
    pub fn render(&self, values: &[String; 6]) -> (text: String)
        ensures
            text@ == rendered(self.channels(), values.deep_view()),
    {
        proof {
            use_type_invariant(self);
        }
        let ghost texts = values.deep_view();
        let mut text = String::new();
        let n = self.data_index.len();
        let mut i: usize = 0;
        while i < n
            invariant
                n == self.data_index.len(),
                i <= n,
                all_channels(self.data_index@),
                texts == values.deep_view(),
                text@ == rendered(self.data_index@.take(i as int), texts),
            decreases n - i,
        {
            let index = self.data_index[i];
            let value = &values[index as usize];
            proof {
                let done = self.data_index@.take(i as int);
                let more = self.data_index@.take(i + 1);
                assert(more.drop_last() =~= done);
                assert(more.last() == index);
                assert(texts[index as int] == value@);
            }
            text.append(" ");
            text.append(value.as_str());
            text.append(" ");
            proof {
                reveal_strlit(" ");
                assert(" "@ =~= seq![' ']);
                assert(text@ =~= rendered(self.data_index@.take(i as int), texts) + field(value@));
            }
            i = i + 1;
        }
        assert(self.data_index@.take(n as int) =~= self.data_index@);
        text
    }

    /// Reads a selector into the indices of the channels that it names.
    pub fn parse_data_str(data_str: &str) -> (data_index: Vec<u8>)
        ensures
            data_index@ == selector_channels(data_str@),
            all_channels(data_index@),
    {
        proof {
            lemma_channels_in_range(data_str@);
        }
        let mut data_index: Vec<u8> = Vec::new();
        let mut token: Vec<char> = Vec::new();
        let ghost mut pos: int = 0;
        assert(data_index@ + selector_channels(token@ + data_str@.skip(0)) =~= selector_channels(
            data_str@,
        )) by {
            assert(token@ + data_str@.skip(0) =~= data_str@);
        }
        for c in it: data_str.chars()
            invariant
                it.seq() == data_str@,
                pos == it.index(),
                has_no_white_space(token@),
                selector_channels(data_str@) == data_index@ + selector_channels(
                    token@ + data_str@.skip(pos),
                ),
        {
            let ghost rest = data_str@.skip(pos);
            let ghost next = data_str@.skip(pos + 1);
            assert(rest.drop_first() =~= next);
            if white_space(c) {
                proof {
                    lemma_channels_split(token@, rest);
                    lemma_channels_of_token(token@);
                    assert(Seq::<char>::empty() + next =~= next);
                }
                push_token_channels(&token, &mut data_index);
                token.clear();
            } else {
                let ghost before = token@;
                token.push(c);
                assert(token@ + next =~= before + rest);
            }
            proof {
                pos = pos + 1;
            }
        }
        proof {
            assert(token@ + data_str@.skip(pos) =~= token@);
            lemma_channels_of_token(token@);
        }
        push_token_channels(&token, &mut data_index);
        data_index
    }
}

} // verus!
