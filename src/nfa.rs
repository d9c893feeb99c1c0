//! The automaton of a pattern: compiling, matching, catenating and generating.
use vstd::prelude::*;
use crate::automaton::{State, accepts_word, reach, reaches, well_formed};
use crate::compose::{concat, concat_states, lemma_concat, split_accepted};
use crate::language::in_language;
use crate::laws::{lemma_language_nonempty, witness};
use crate::parser::{ParseError, Parser, parse_pattern};
use crate::generate::generate;
use crate::search::accepts_from;
use crate::thompson::{build, lemma_thompson};
use crate::tokenizer::{Tokenizer, chars_of};
use vstd::string::StringExecFns;

verus! {

/// A nondeterministic finite automaton: an arena of states and a start state.
#[derive(Debug)]
pub struct NFA {
    start: usize,
    states: Vec<State>,
}

impl View for NFA {
    type V = Seq<State>;

    /// The arena of states.
    closed spec fn view(&self) -> Seq<State> {
        self.states@
    }
}

impl NFA {
    /// Every automaton is finished: see `well_formed`.
    #[verifier::type_invariant]
    spec fn finished(&self) -> bool {
        well_formed(self.states@, self.start as int)
    }

    /// The index of the start state.
    pub closed spec fn start_index(&self) -> int {
        self.start as int
    }

    /// The automaton accepts `w`.
    pub open spec fn accepts_spec(&self, w: Seq<char>) -> bool {
        accepts_word(self@, self.start_index(), w)
    }

    /// The automaton accepts some string.
    pub open spec fn accepts_some(&self) -> bool {
        exists|w: Seq<char>| #[trigger] self.accepts_spec(w)
    }

    /// The arena of states, for drawing the automaton.
    pub fn states(&self) -> (r: &Vec<State>)
        ensures
            r@ == self@,
    {
        &self.states
    }

    /// The index of the start state.
    pub fn start(&self) -> (r: usize)
        ensures
            r == self.start_index(),
    {
        self.start
    }

    /// Compiles a pattern. Fails, with the parser's error, exactly when the pattern
    /// does not parse; otherwise the automaton accepts exactly the strings of the
    /// pattern's language.
    pub fn from(regular_expression: &str) -> (r: Result<NFA, ParseError>)
        ensures
            r is Err <==> parse_pattern(regular_expression@) is Err,
            r is Err ==> r->Err_0 == parse_pattern(regular_expression@)->Err_0,
            r is Ok ==> forall|w: Seq<char>|
                #[trigger] r->Ok_0.accepts_spec(w) <==> in_language(
                    parse_pattern(regular_expression@)->Ok_0,
                    w,
                ),
            r is Ok ==> r->Ok_0.accepts_some(),
    {
        let ast = match Parser::parse(Tokenizer::new(regular_expression)) {
            Ok(ast) => ast,
            Err(e) => return Err(e),
        };
        let states = build(&ast);
        proof {
            assert(states.len() <= usize::MAX);
            lemma_thompson(states@, ast);
            lemma_language_nonempty(ast);
            assert(accepts_word(states@, 0, witness(ast)));
        }
        let nfa = NFA { start: 0, states };
        assert(nfa.accepts_spec(witness(ast)));
        Ok(nfa)
    }

    /// Whether the whole of `input` is accepted.
    pub fn accepts(&self, input: &str) -> (r: bool)
        ensures
            r == self.accepts_spec(input@),
    {
        proof {
            use_type_invariant(self);
        }
        let chars = chars_of(input);
        accepts_from(&self.states, self.start, &chars)
    }

    /// Whether a run from state `curr_state`, reading `chars` from its start,
    /// reads all of it and ends in the accepting state.
    pub fn recur(&self, curr_state: usize, chars: &str) -> (r: bool)
        requires
            curr_state < self@.len(),
        ensures
            r == reaches(self@, chars@, curr_state as int, 0, self@.len() - 1, chars@.len() as int),
    {
        proof {
            use_type_invariant(self);
        }
        let input = chars_of(chars);
        if curr_state == self.states.len() - 1 {
            proof {
                if reaches(self@, chars@, curr_state as int, 0, self@.len() - 1, chars@.len() as int) {
                    let n = choose|n: nat|
                        #[trigger] reach(self@, chars@, curr_state as int, 0, self@.len() - 1, chars@.len() as int, n);
                }
                if chars@.len() == 0 {
                    assert(reach(self@, chars@, curr_state as int, 0, self@.len() - 1, 0, 0));
                }
            }
            input.len() == 0
        } else {
            accepts_from(&self.states, curr_state, &input)
        }
    }

    /// A string that the automaton accepts, built by a random walk from the start:
    /// at a split either branch is taken with equal chance, and a dot reads a
    /// random ASCII letter or digit.
    pub fn gen(&self) -> (r: String)
        ensures
            self.accepts_some() ==> self.accepts_spec(r@),
    {
        proof {
            use_type_invariant(self);
        }
        let chars = generate(&self.states, self.start);
        string_from(&chars)
    }

    /// `input` followed by a string that a run from state `curr_state` reads to
    /// the accepting state, built by the same random walk as `gen`, if any such
    /// string exists.
    pub fn recur_gen(&self, curr_state: usize, input: String) -> (r: String)
        requires
            curr_state < self@.len(),
        ensures
            (exists|w: Seq<char>| #[trigger] accepts_word(self@, curr_state as int, w)) ==> {
                &&& r@.len() >= input@.len()
                &&& r@.take(input@.len() as int) == input@
                &&& accepts_word(self@, curr_state as int, r@.skip(input@.len() as int))
            },
    {
        proof {
            use_type_invariant(self);
        }
        if curr_state == self.states.len() - 1 {
            proof {
                let e = Seq::<char>::empty();
                assert(reach(self@, e, curr_state as int, 0, self@.len() - 1, 0, 0));
                assert(input@.take(input@.len() as int) == input@);
                assert(input@.skip(input@.len() as int) == e);
            }
            input
        } else {
            let chars = generate(&self.states, curr_state);
            let tail = string_from(&chars);
            let r = input.concat(tail.as_str());
            proof {
                assert(r@.take(input@.len() as int) == input@);
                assert(r@.skip(input@.len() as int) == chars@);
            }
            r
        }
    }

    /// The automaton of the catenation: it accepts exactly a string accepted by
    /// `self` followed by a string accepted by `rhs`. Neither operand changes.
    pub fn compose(&self, rhs: &NFA) -> (r: NFA)
        ensures
            r@ == concat_states(self@, rhs@, rhs.start_index()),
            r.start_index() == self.start_index(),
            forall|w: Seq<char>|
                #[trigger] r.accepts_spec(w) <==> split_accepted(
                    self@,
                    self.start_index(),
                    rhs@,
                    rhs.start_index(),
                    w,
                ),
    {
        proof {
            use_type_invariant(self);
            use_type_invariant(rhs);
        }
        let states = concat(&self.states, &rhs.states, rhs.start);
        proof {
            assert(states.len() <= usize::MAX);
            lemma_concat(self.states@, self.start as int, rhs.states@, rhs.start as int);
        }
        NFA { start: self.start, states }
    }
}

/// Relies on `String`'s `FromIterator<char>`: the characters in order.
#[verifier::external_body]
fn string_from(chars: &Vec<char>) -> (r: String)
    ensures
        r@ == chars@,
{
    chars.iter().collect()
}

impl core::ops::Add for NFA {
    type Output = NFA;

    /// The catenation of two automata: see `compose`.
    fn add(self, rhs: NFA) -> NFA {
        self.compose(&rhs)
    }
}

impl vstd::std_specs::ops::AddSpecImpl for NFA {
    /// `+` is specified by `compose`, not here.
    open spec fn obeys_add_spec() -> bool {
        false
    }

    open spec fn add_req(self, rhs: NFA) -> bool {
        true
    }

    open spec fn add_spec(self, rhs: NFA) -> NFA {
        self
    }
}

impl Clone for NFA {
    fn clone(&self) -> (r: NFA)
        ensures
            r@ == self@,
            r.start_index() == self.start_index(),
    {
        proof {
            use_type_invariant(self);
        }
        let states = self.states.clone();
        assert(states@ =~= self.states@);
        NFA { start: self.start, states }
    }
}

} // verus!
