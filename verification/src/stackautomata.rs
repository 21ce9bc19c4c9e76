//! The shift/reduce driver: a stack of state indices, an input cursor, and
//! the trace of reductions taken. Each run is a pure function of the table,
//! the grammar and the input, so equal runs yield equal traces.

use vstd::prelude::*;

use crate::grammar::term_sym;
use crate::grammar::Grammar;
use crate::grammar::Rule;
use crate::grammar::Sym;
use crate::lrtable::Action;
use crate::lrtable::Table;
use crate::sets::char_at;
use crate::sets::vec_at;

verus! {

/// The mutable part of a driver: the state stack, the input cursor, and the
/// reduction trace.
pub struct DriverConfig {
    pub stack: Seq<usize>,
    pub place: int,
    pub result: Seq<usize>,
}

/// The lookahead at a cursor: the next input character, or the end-marker
/// past the end.
pub open spec fn spec_peek(input: Seq<char>, place: int) -> Sym {
    if 0 <= place < input.len() {
        term_sym(input[place])
    } else {
        Sym::Eps
    }
}

/// The top of the stack names states whose incoming symbols spell the
/// right-hand side about to be reduced.
pub open spec fn stack_matches<T: Table>(t: T, stack: Seq<usize>, rhs: Seq<char>) -> bool {
    &&& rhs.len() <= stack.len()
    &&& (forall|k: int|
        #![trigger rhs[rhs.len() - 1 - k]]
        0 <= k < rhs.len() ==> t.spec_char(stack[stack.len() - 1 - k] as int) == Some(
            rhs[rhs.len() - 1 - k],
        ))
}

/// One step of the driver: look the action up under the current lookahead
/// and dispatch. `None` stands for rejection; the configuration it leaves
/// behind is exactly what the executable driver leaves behind.
pub open spec fn spec_step<T: Table>(t: T, g: Grammar, c: DriverConfig, input: Seq<char>) -> (
    DriverConfig,
    Option<Action>,
) {
    if c.stack.len() == 0 {
        (c, None)
    } else {
        let s = c.stack.last();
        let sym = spec_peek(input, c.place);
        match t.spec_action(s as int, sym) {
            None => (c, None),
            Some(a) => match a {
                Action::Shift => {
                    if 0 <= c.place < input.len() {
                        let moved = DriverConfig { place: c.place + 1, ..c };
                        match t.spec_goto(s as int, input[c.place]) {
                            Some(ns) => (
                                DriverConfig { stack: c.stack.push(ns), ..moved },
                                Some(Action::Shift),
                            ),
                            None => (moved, None),
                        }
                    } else {
                        (c, None)
                    }
                },
                Action::Accept => {
                    if g.rules@.len() > 0 && stack_matches(t, c.stack, g.rules@[0].right@) {
                        (
                            DriverConfig {
                                stack: c.stack.take(c.stack.len() - g.rules@[0].right@.len()),
                                result: c.result.push(0),
                                ..c
                            },
                            Some(Action::Accept),
                        )
                    } else {
                        (c, None)
                    }
                },
                Action::Reduction(x) => {
                    if x < g.rules@.len() && stack_matches(t, c.stack, g.rules@[x as int].right@) {
                        let popped = c.stack.take(
                            c.stack.len() - g.rules@[x as int].right@.len(),
                        );
                        let mid = DriverConfig { stack: popped, ..c };
                        if popped.len() > 0 {
                            match t.spec_goto(popped.last() as int, g.rules@[x as int].left) {
                                Some(ns) => (
                                    DriverConfig {
                                        stack: popped.push(ns),
                                        result: c.result.push(x),
                                        ..c
                                    },
                                    Some(Action::Reduction(x)),
                                ),
                                None => (mid, None),
                            }
                        } else {
                            (mid, None)
                        }
                    } else {
                        (c, None)
                    }
                },
                Action::Error => (c, None),
                Action::Empty => (c, None),
            },
        }
    }
}

/// Up to `fuel` steps of the driver: the final configuration, and whether the
/// run ended in acceptance.
pub open spec fn spec_run<T: Table>(
    t: T,
    g: Grammar,
    c: DriverConfig,
    input: Seq<char>,
    fuel: nat,
) -> (DriverConfig, bool)
    decreases fuel,
{
    if fuel == 0 {
        (c, false)
    } else {
        let (c2, r) = spec_step(t, g, c, input);
        match r {
            None => (c2, false),
            Some(a) => if a == Action::Accept {
                (c2, true)
            } else {
                spec_run(t, g, c2, input, (fuel - 1) as nat)
            },
        }
    }
}

/// The driver: a parse table, an input, and the running configuration.
pub struct StackAutomata<'a, T: Table> {
    pub stack: Vec<usize>,
    pub input: Vec<char>,
    pub result: Vec<usize>,
    pub place: usize,
    pub gramm: &'a Grammar,
    pub table: &'a T,
}

impl<'a, T: Table> StackAutomata<'a, T> {
    /// The mutable part of the driver as one value.
    pub open spec fn config(self) -> DriverConfig {
        DriverConfig { stack: self.stack@, place: self.place as int, result: self.result@ }
    }

    /// A fresh driver: stack `[0]`, cursor at the start, no reductions yet.
    pub fn new(table: &'a T, input: Vec<char>, gramm: &'a Grammar) -> (r: Self)
        ensures
            r.stack@ == seq![0usize],
            r.input == input,
            r.result@.len() == 0,
            r.place == 0,
            r.gramm == gramm,
            r.table == table,
    {
        let mut stack: Vec<usize> = Vec::new();
        stack.push(0);
        proof {
            assert(stack@ =~= seq![0usize]);
        }
        StackAutomata { stack, input, result: Vec::new(), place: 0, gramm, table }
    }

    /// The state on top of the stack.
    pub fn top(&self) -> (r: Option<usize>)
        ensures
            self.stack@.len() == 0 ==> r is None,
            self.stack@.len() > 0 ==> r == Some(self.stack@.last()),
    {
        if self.stack.len() > 0 {
            Some(vec_at(&self.stack, self.stack.len() - 1))
        } else {
            None
        }
    }

    /// The input character under the cursor, if any.
    pub fn peek_char(&self) -> (r: Option<char>)
        ensures
            (self.place < self.input@.len()) <==> (r is Some),
            (r is Some) ==> r == Some(self.input@[self.place as int]),
    {
        if self.place < self.input.len() {
            Some(char_at(&self.input, self.place))
        } else {
            None
        }
    }

    /// Consumes one input character.
    pub fn next_char(&mut self) -> (r: Option<char>)
        ensures
            final(self).stack == old(self).stack,
            final(self).input == old(self).input,
            final(self).result == old(self).result,
            final(self).gramm == old(self).gramm,
            final(self).table == old(self).table,
            (old(self).place < old(self).input@.len()) <==> (r is Some),
            (r is Some) ==> (r == Some(old(self).input@[old(self).place as int])
                && final(self).place == old(self).place + 1),
            (r is None) ==> final(self).place == old(self).place,
    {
        let r = self.peek_char();
        if r.is_some() {
            proof {
                vstd::std_specs::vec::axiom_spec_len(&self.input);
            }
            self.place = self.place + 1;
        }
        r
    }

    /// The goto target from the state on top of the stack.
    pub fn get_goto(&self, c: char) -> (r: Option<usize>)
        ensures
            self.stack@.len() == 0 ==> r is None,
            self.stack@.len() > 0 ==> r == self.table.spec_goto(self.stack@.last() as int, c),
    {
        match self.top() {
            Some(state) => self.table.get_goto(state, c),
            None => None,
        }
    }

    /// Checks that the top of the stack spells the rule's right-hand side
    /// (by each state's incoming symbol) and pops it; on any mismatch the
    /// stack is left untouched.
    pub fn compare_stack(&mut self, rule: &Rule) -> (r: Option<char>)
        ensures
            final(self).input == old(self).input,
            final(self).result == old(self).result,
            final(self).place == old(self).place,
            final(self).gramm == old(self).gramm,
            final(self).table == old(self).table,
            (r is Some) <==> stack_matches(*old(self).table, old(self).stack@, rule.right@),
            (r is Some) ==> r == Some(rule.left) && final(self).stack@ == old(self).stack@.take(
                old(self).stack@.len() - rule.right@.len(),
            ),
            (r is None) ==> final(self).stack == old(self).stack,
    {
        let n = rule.right.len();
        if n > self.stack.len() {
            return None;
        }
        let mut k: usize = 0;
        while k < n
            invariant
                0 <= k <= n,
                n == rule.right@.len(),
                n <= self.stack@.len(),
                *self == *old(self),
                forall|k2: int|
                    #![trigger rule.right@[n - 1 - k2]]
                    0 <= k2 < k ==> old(self).table.spec_char(
                        old(self).stack@[old(self).stack@.len() - 1 - k2] as int,
                    ) == Some(rule.right@[n - 1 - k2]),
            decreases n - k,
        {
            let state = vec_at(&self.stack, self.stack.len() - 1 - k);
            let expect = char_at(&rule.right, n - 1 - k);
            match self.table.get_char(state) {
                Some(cc) => {
                    if cc != expect {
                        return None;
                    }
                },
                None => {
                    return None;
                },
            }
            k += 1;
        }
        let ghost pre = self.stack@;
        let mut k2: usize = 0;
        while k2 < n
            invariant
                0 <= k2 <= n,
                n <= pre.len(),
                self.input == old(self).input,
                self.result == old(self).result,
                self.place == old(self).place,
                self.gramm == old(self).gramm,
                self.table == old(self).table,
                self.stack@ =~= pre.take(pre.len() - k2),
            decreases n - k2,
        {
            self.stack.pop();
            proof {
                assert(self.stack@ =~= pre.take(pre.len() - k2 - 1));
            }
            k2 += 1;
        }
        proof {
            assert(self.stack@ =~= pre.take(pre.len() - n));
        }
        Some(crate::lr0rule::left_at_rule(rule))
    }

    /// One driver step: exactly the transition `spec_step` describes, on this
    /// driver's table, grammar, and input.
    pub fn step(&mut self) -> (r: Option<Action>)
        ensures
            final(self).input == old(self).input,
            final(self).gramm == old(self).gramm,
            final(self).table == old(self).table,
            (final(self).config(), r) == spec_step(
                *old(self).table,
                *old(self).gramm,
                old(self).config(),
                old(self).input@,
            ),
    {
        let top_stack = match self.top() {
            Some(s) => s,
            None => {
                return None;
            },
        };
        let nchar = match self.peek_char() {
            Some(x) => Sym::Normal(x),
            None => Sym::Eps,
        };
        let action = match self.table.get_action(top_stack, nchar) {
            Some(a) => a,
            None => {
                return None;
            },
        };
        let gr: &Grammar = self.gramm;
        match action {
            Action::Shift => {
                let c = match self.next_char() {
                    Some(c) => c,
                    None => {
                        return None;
                    },
                };
                match self.get_goto(c) {
                    Some(ns) => {
                        self.stack.push(ns);
                        Some(Action::Shift)
                    },
                    None => None,
                }
            },
            Action::Accept => {
                if gr.rules.len() == 0 {
                    return None;
                }
                let rule = &gr.rules[0];
                match self.compare_stack(rule) {
                    Some(_) => {
                        self.result.push(0);
                        Some(Action::Accept)
                    },
                    None => None,
                }
            },
            Action::Reduction(x) => {
                if x >= gr.rules.len() {
                    return None;
                }
                let rule = &gr.rules[x];
                let c = match self.compare_stack(rule) {
                    Some(c) => c,
                    None => {
                        return None;
                    },
                };
                match self.get_goto(c) {
                    Some(ns) => {
                        self.stack.push(ns);
                        self.result.push(x);
                        Some(Action::Reduction(x))
                    },
                    None => None,
                }
            },
            Action::Error => None,
            Action::Empty => None,
        }
    }

    /// Runs the driver until it accepts or rejects: the reduction trace and
    /// the final stack and cursor are exactly what `spec_run` computes, so
    /// two runs over equal tables and inputs end alike.
    pub fn run(&mut self) -> (r: Option<()>)
        ensures
            final(self).input == old(self).input,
            final(self).gramm == old(self).gramm,
            final(self).table == old(self).table,
            final(self).config() == spec_run(
                *old(self).table,
                *old(self).gramm,
                old(self).config(),
                old(self).input@,
                usize::MAX as nat,
            ).0,
            (r is Some) <==> spec_run(
                *old(self).table,
                *old(self).gramm,
                old(self).config(),
                old(self).input@,
                usize::MAX as nat,
            ).1,
    {
        let ghost target = spec_run(
            *old(self).table,
            *old(self).gramm,
            old(self).config(),
            old(self).input@,
            usize::MAX as nat,
        );
        let mut fuel: usize = usize::MAX;
        while fuel > 0
            invariant
                self.input == old(self).input,
                self.gramm == old(self).gramm,
                self.table == old(self).table,
                target == spec_run(
                    *old(self).table,
                    *old(self).gramm,
                    old(self).config(),
                    old(self).input@,
                    usize::MAX as nat,
                ),
                target == spec_run(
                    *old(self).table,
                    *old(self).gramm,
                    self.config(),
                    self.input@,
                    fuel as nat,
                ),
            decreases fuel,
        {
            let ghost c_pre = self.config();
            let ghost f_pre = fuel as nat;
            fuel = fuel - 1;
            let stepped = self.step();
            proof {
                let tg = *old(self).table;
                let gg = *old(self).gramm;
                let inp = old(self).input@;
                assert(spec_run(tg, gg, c_pre, inp, f_pre) == ({
                    let (c2, r2) = spec_step(tg, gg, c_pre, inp);
                    match r2 {
                        None => (c2, false),
                        Some(a2) => if a2 == Action::Accept {
                            (c2, true)
                        } else {
                            spec_run(tg, gg, c2, inp, (f_pre - 1) as nat)
                        },
                    }
                }));
            }
            let a = match stepped {
                Some(a) => a,
                None => {
                    return None;
                },
            };
            if matches!(a, Action::Accept) {
                return Some(());
            }
        }
        None
    }
}

} // verus!
