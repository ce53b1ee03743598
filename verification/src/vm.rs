//! The interpreter: a grammar held ready, and the parse of an input with it.

use vstd::prelude::*;
use vstd::hash_map::StringHashMap;
use vstd::utf8::encode_utf8;
use crate::context::Context;
use crate::grammar::{token_models, Atomicity, Grammar, Rule, Token, TokenModel};
use crate::laws::{lemma_parse_orderly, tokens_nested, tokens_on_chars, tokens_within};
use crate::semantics::{FatalError, Parsed, Scope};

verus! {

/// Why a parse gave no tokens.
#[derive(Clone, Copy, Debug, PartialEq, Eq, Structural)]
pub enum ParseError {
    /// The input does not match. `position` is the furthest offset at which something
    /// failed to match.
    FailureAt { position: usize },
    /// The grammar is at fault.
    Fatal(FatalError),
}

/// The depth to which [`Vm::parse`] lets rules be nested.
pub const MAX_DEPTH: usize = 512;

/// A grammar, ready to parse with.
pub struct Vm {
    rules: StringHashMap<Rule>,
}

/// The grammar that a list of rules makes: each name stands for the last rule of that
/// name in the list.
pub open spec fn grammar_of(rules: Seq<Rule>) -> Grammar
    decreases rules.len(),
{
    if rules.len() == 0 {
        Map::empty()
    } else {
        grammar_of(rules.drop_last()).insert(rules.last().name@, rules.last()@)
    }
}

/// The tokens of a parse of `input` are in order: they lie inside the input, are nested,
/// come in the order of the input, and begin and end at boundaries of characters. A
/// failure lies inside the input.
pub open spec fn in_order(result: Result<Vec<Token>, ParseError>, input: Seq<char>) -> bool {
    match result {
        Ok(tokens) => {
            &&& tokens_within(token_models(tokens@), 0, encode_utf8(input).len() as int)
            &&& tokens_nested(token_models(tokens@))
            &&& tokens_on_chars(encode_utf8(input), token_models(tokens@))
        },
        Err(ParseError::FailureAt { position }) => position <= encode_utf8(input).len(),
        Err(ParseError::Fatal(_)) => true,
    }
}

/// The result of a parse is what `parsed` says.
pub open spec fn parsed_is(result: Result<Vec<Token>, ParseError>, parsed: Parsed) -> bool {
    match parsed {
        Parsed::Tokens(tokens) => result matches Ok(found) && token_models(found@) == tokens,
        Parsed::FailureAt(furthest) => result matches Err(ParseError::FailureAt { position })
            && position == furthest,
        Parsed::Fatal(error) => result == Err::<Vec<Token>, ParseError>(ParseError::Fatal(error)),
    }
}

impl View for Vm {
    type V = Grammar;

    closed spec fn view(&self) -> Grammar {
        self.rules@.map_values(|rule: Rule| rule@)
    }
}

impl Vm {
    /// Holds the rules ready. Where two rules have one name, the later one counts.
    pub fn new(rules: Vec<Rule>) -> (vm: Vm)
        ensures
            vm@ == grammar_of(rules@),
    {
        let mut map: StringHashMap<Rule> = StringHashMap::new();
        let ghost all = rules@;
        assert(map@.map_values(|rule: Rule| rule@) =~= grammar_of(all.take(0)));
        for rule in it: rules
            invariant
                it.seq() == all,
                map@.map_values(|rule: Rule| rule@) == grammar_of(all.take(it.index() as int)),
        {
            let ghost before = map@;
            let ghost done = it.index() as int;
            let name = rule.name.clone();
            map.insert(name, rule);
            proof {
                assert(all.take(done + 1).drop_last() =~= all.take(done));
                assert(all.take(done + 1).last() == rule);
                assert(map@.map_values(|rule: Rule| rule@) =~= before.map_values(
                    |rule: Rule| rule@,
                ).insert(rule.name@, rule@));
            }
        }
        assert(all.take(all.len() as int) =~= all);
        Vm { rules: map }
    }

    /// The rule that `name` stands for.
    pub fn rule(&self, name: &str) -> (found: Option<&Rule>)
        ensures
            match found {
                Some(rule) => self@.contains_key(name@) && rule@ == self@[name@],
                None => !self@.contains_key(name@),
            },
    {
        self.rules.get(name)
    }

    /// Whether the grammar has a rule of that name.
    pub fn defines(&self, name: &str) -> (defined: bool)
        ensures
            defined == self@.contains_key(name@),
    {
        self.rules.contains_key(name)
    }

    /// Parses `input` with the rule `rule`, letting rules be nested `depth` deep.
    pub fn parse_within(&self, rule: &str, input: &str, depth: usize) -> (result: Result<
        Vec<Token>,
        ParseError,
    >)
        ensures
            parsed_is(
                result,
                crate::semantics::parse(self@, encode_utf8(input@), rule@, depth as nat),
            ),
            in_order(result, input@),
    {
        let mut ctx = Context::new();
        let bytes = input.as_bytes();
        proof {
            assert(bytes.len() == bytes@.len());
            lemma_parse_orderly(self@, input@, rule@, depth as nat);
        }
        let scope = Scope { atomicity: Atomicity::NonAtomic, lookahead: false };
        match self.parse_rule(bytes, rule, 0, scope, &mut ctx, depth) {
            Ok(Ok(_)) => {
                assert(ctx.emitted() =~= Seq::<crate::grammar::TokenModel>::empty()
                    + ctx.emitted());
                Ok(ctx.into_tokens())
            },
            Ok(Err(_)) => Err(ParseError::FailureAt { position: ctx.furthest_failure() }),
            Err(error) => Err(ParseError::Fatal(error)),
        }
    }

    /// Parses `input` with the rule `rule`: the tokens of the rules that matched, in the
    /// order of the input, or the reason why there are none.
    pub fn parse(&self, rule: &str, input: &str) -> (result: Result<Vec<Token>, ParseError>)
        ensures
            parsed_is(
                result,
                crate::semantics::parse(self@, encode_utf8(input@), rule@, MAX_DEPTH as nat),
            ),
            in_order(result, input@),
    {
        self.parse_within(rule, input, MAX_DEPTH)
    }
}

} // verus!
