use vstd::prelude::*;

use crate::env::{add_word, DictView, ProcView, ZfEnv, ZfProc};
use crate::token::{tokens_view, TokenView, ZfToken};

verus! {

// The inner interpreter. The return stack holds (word, instruction pointer)
// frames; each step looks at the token under the pointer of the top frame.
// Primitives are called by the program around the library: a step that meets
// one reports it, and `after_builtin` finishes the step once it has run.

/// What one step of the interpreter did.
pub enum Step {
    /// The return stack is empty: the program has ended.
    Halted,
    /// The token under the pointer names the primitive with this number; it
    /// is to be run, then `after_builtin` called.
    CallBuiltin(usize),
    /// The step is done.
    Stepped,
}

pub enum StepView {
    Halted,
    CallBuiltin(usize),
    Stepped,
}

impl View for Step {
    type V = StepView;

    open spec fn view(&self) -> StepView {
        match self {
            Step::Halted => StepView::Halted,
            Step::CallBuiltin(b) => StepView::CallBuiltin(*b),
            Step::Stepped => StepView::Stepped,
        }
    }
}

/// The body of the word of the top frame (empty when that word is a
/// primitive).
pub open spec fn top_body(d: DictView, rs: Seq<(usize, usize)>) -> Seq<TokenView> {
    match d[rs.last().0 as int].1 {
        ProcView::User(b) => b,
        ProcView::Builtin(_) => seq![],
    }
}

/// The return stack with the pointer of its top frame moved to the next token.
pub open spec fn bump_top(rs: Seq<(usize, usize)>) -> Seq<(usize, usize)> {
    rs.update(rs.len() - 1, (rs.last().0, (rs.last().1 + 1) as usize))
}

/// The states on which a step neither panics nor overflows: the top frame
/// names a word of the dictionary that has a body; a frame that has run off
/// the end of its body returns to a frame whose pointer can move on; a word
/// named under the pointer is in the dictionary.
pub open spec fn step_defined(d: DictView, rs: Seq<(usize, usize)>) -> bool {
    rs.len() == 0 || {
        let (w, ip) = rs.last();
        &&& w < d.len()
        &&& d[w as int].1 is User
        &&& ip >= top_body(d, rs).len() ==> (rs.len() >= 2 ==> rs[rs.len() - 2].1 < usize::MAX)
        &&& ip < top_body(d, rs).len() ==> (top_body(d, rs)[ip as int] matches TokenView::Symbol(s)
            ==> s < d.len())
    }
}

/// One step: what it reports, and the data stack and return stack after it.
pub open spec fn step_spec(pile: Seq<TokenView>, d: DictView, rs: Seq<(usize, usize)>) -> (
    StepView,
    Seq<TokenView>,
    Seq<(usize, usize)>,
) {
    if rs.len() == 0 {
        (StepView::Halted, pile, rs)
    } else {
        let ip = rs.last().1;
        let body = top_body(d, rs);
        if ip >= body.len() {
            let rs1 = rs.drop_last();
            (StepView::Stepped, pile, if rs1.len() > 0 {
                bump_top(rs1)
            } else {
                rs1
            })
        } else {
            match body[ip as int] {
                TokenView::Nop => (StepView::Stepped, pile, bump_top(rs)),
                TokenView::Symbol(s) => match d[s as int].1 {
                    ProcView::Builtin(b) => (StepView::CallBuiltin(b), pile, rs),
                    ProcView::User(_) => (StepView::Stepped, pile, rs.push((s, 0usize))),
                },
                TokenView::SymbRef(i) => (StepView::Stepped, pile.push(TokenView::Symbol(i)), bump_top(rs)),
                t => (StepView::Stepped, pile.push(t), bump_top(rs)),
            }
        }
    }
}

/// `n` steps in a row, with no primitive run in between: the data stack and
/// return stack afterwards.
pub open spec fn run_steps(pile: Seq<TokenView>, d: DictView, rs: Seq<(usize, usize)>, n: nat) -> (
    Seq<TokenView>,
    Seq<(usize, usize)>,
)
    decreases n,
{
    if n == 0 {
        (pile, rs)
    } else {
        let (_, p2, r2) = step_spec(pile, d, rs);
        run_steps(p2, d, r2, (n - 1) as nat)
    }
}

/// What running a body that calls no word pushes on the data stack: every
/// token but the labels, a reference to a word going on as the word itself.
pub open spec fn pushed(code: Seq<TokenView>) -> Seq<TokenView>
    decreases code.len(),
{
    if code.len() == 0 {
        seq![]
    } else {
        let rest = pushed(code.drop_first());
        match code[0] {
            TokenView::Nop => rest,
            TokenView::SymbRef(i) => seq![TokenView::Symbol(i)] + rest,
            t => seq![t] + rest,
        }
    }
}

/// A step whose token under the pointer is a reference to a word (`&w`, or a
/// quotation `[ ... ]`) pushes the word itself and moves the pointer of the
/// top frame on, however many frames the return stack holds.
pub proof fn law_reference_pushes_word(pile: Seq<TokenView>, d: DictView, rs: Seq<(usize, usize)>, i: usize)
    requires
        rs.len() > 0,
        rs.last().1 < top_body(d, rs).len(),
        top_body(d, rs)[rs.last().1 as int] == TokenView::SymbRef(i),
    ensures
        step_spec(pile, d, rs) == (StepView::Stepped, pile.push(TokenView::Symbol(i)), bump_top(rs)),
{
}

/// The frames below the top one play no part in a step that does not return
/// from the top frame: the step reports the same, pushes the same on the data
/// stack and does the same to the top frame as it does with the top frame
/// alone, and leaves the frames below as they are.
pub proof fn law_step_looks_only_at_top(
    pile: Seq<TokenView>,
    d: DictView,
    below: Seq<(usize, usize)>,
    top: (usize, usize),
)
    requires
        top.1 < top_body(d, seq![top]).len(),
    ensures
        step_spec(pile, d, below.push(top)).0 == step_spec(pile, d, seq![top]).0,
        step_spec(pile, d, below.push(top)).1 == step_spec(pile, d, seq![top]).1,
        step_spec(pile, d, below.push(top)).2 == below + step_spec(pile, d, seq![top]).2,
{
    let rs = below.push(top);
    let one = seq![top];
    assert(rs.last() == top);
    assert(one.last() == top);
    assert(top_body(d, rs) == top_body(d, one));
    assert(bump_top(rs) =~= below + bump_top(one));
    assert forall|x: (usize, usize)| #[trigger] rs.push(x) =~= below + one.push(x) by {}
    assert(rs =~= below + one);
}

/// What one step does, for each token under the pointer of the top frame:
/// with no frame the program has ended; past the end of its body a word
/// returns, and the pointer of the frame it returns to moves on; a label
/// does nothing; a call of a word with a body pushes a frame at its first
/// token; a call of a primitive is reported and changes nothing; a reference
/// pushes the word it refers to; any other token goes on the data stack as it
/// is. Every step that does not call or return moves the pointer on.
pub proof fn law_step_cases(pile: Seq<TokenView>, d: DictView, rs: Seq<(usize, usize)>)
    ensures
        rs.len() == 0 ==> step_spec(pile, d, rs) == (StepView::Halted, pile, rs),
        rs.len() > 0 && rs.last().1 >= top_body(d, rs).len() ==> step_spec(pile, d, rs) == (
            StepView::Stepped,
            pile,
            if rs.len() >= 2 {
                rs.drop_last().update(rs.len() - 2, (rs[rs.len() - 2].0, (rs[rs.len() - 2].1 + 1) as usize))
            } else {
                Seq::<(usize, usize)>::empty()
            },
        ),
        rs.len() > 0 && rs.last().1 < top_body(d, rs).len() ==> ({
            let t = top_body(d, rs)[rs.last().1 as int];
            let moved = rs.update(rs.len() - 1, (rs.last().0, (rs.last().1 + 1) as usize));
            &&& t == TokenView::Nop ==> step_spec(pile, d, rs) == (StepView::Stepped, pile, moved)
            &&& (t is Symbol && d[t->Symbol_0 as int].1 is User) ==> step_spec(pile, d, rs) == (
                StepView::Stepped,
                pile,
                rs.push((t->Symbol_0, 0usize)),
            )
            &&& (t is Symbol && d[t->Symbol_0 as int].1 is Builtin) ==> step_spec(pile, d, rs) == (
                StepView::CallBuiltin(d[t->Symbol_0 as int].1->Builtin_0),
                pile,
                rs,
            )
            &&& t is SymbRef ==> step_spec(pile, d, rs) == (
                StepView::Stepped,
                pile.push(TokenView::Symbol(t->SymbRef_0)),
                moved,
            )
            &&& !(t is Nop || t is Symbol || t is SymbRef) ==> step_spec(pile, d, rs) == (
                StepView::Stepped,
                pile.push(t),
                moved,
            )
        }),
{
    if rs.len() >= 2 {
        let rs1 = rs.drop_last();
        assert(rs1.last() == rs[rs.len() - 2]);
        assert(bump_top(rs1) =~= rs.drop_last().update(
            rs.len() - 2,
            (rs[rs.len() - 2].0, (rs[rs.len() - 2].1 + 1) as usize),
        ));
    } else if rs.len() == 1 {
        assert(rs.drop_last() =~= Seq::<(usize, usize)>::empty());
    }
}

impl ZfEnv {
    /// Whether a step can be taken from this state without a panic.
    pub fn can_step(&self) -> (r: bool)
        ensures
            r == step_defined(self.dict_view(), self.rs@),
    {
        let n = self.rs.len();
        if n == 0 {
            return true;
        }
        let (w, ip) = self.rs[n - 1];
        if w >= self.dict.len() {
            return false;
        }
        match &self.dict[w].1 {
            ZfProc::Builtin(_) => false,
            ZfProc::User(body) => {
                if ip >= body.len() {
                    n < 2 || self.rs[n - 2].1 < usize::MAX
                } else {
                    match &body[ip] {
                        ZfToken::Symbol(s) => *s < self.dict.len(),
                        _ => true,
                    }
                }
            },
        }
    }

    /// Moves the pointer of the top frame to the next token.
    fn bump(&mut self)
        requires
            old(self).rs@.len() > 0,
            old(self).rs@.last().1 < usize::MAX,
        ensures
            final(self).rs@ == bump_top(old(self).rs@),
            final(self).pile == old(self).pile,
            final(self).dict == old(self).dict,
            final(self).vars == old(self).vars,
    {
        let top = self.rs.len() - 1;
        let (w, ip) = self.rs[top];
        self.rs.set(top, (w, ip + 1));
    }

    /// Files `code` as the word `main` and pushes a frame that runs it from
    /// its first token. Returns the index of `main`.
    pub fn start(&mut self, code: Vec<ZfToken>) -> (r: usize)
        ensures
            final(self).dict_view() == add_word(old(self).dict_view(), "main"@, tokens_view(code@)).0,
            r as int == add_word(old(self).dict_view(), "main"@, tokens_view(code@)).1,
            final(self).rs@ == old(self).rs@.push((r, 0usize)),
            final(self).pile == old(self).pile,
            final(self).vars == old(self).vars,
    {
        let main = self.addword("main".to_owned(), code);
        self.rs.push((main, 0));
        main
    }

    /// One step of the interpreter. A primitive under the pointer is not run
    /// here: the step reports it and leaves the state as it is.
    pub fn step(&mut self) -> (r: Step)
        requires
            step_defined(old(self).dict_view(), old(self).rs@),
        ensures
            (r@, tokens_view(final(self).pile@), final(self).rs@) == step_spec(
                tokens_view(old(self).pile@),
                old(self).dict_view(),
                old(self).rs@,
            ),
            final(self).dict == old(self).dict,
            final(self).vars == old(self).vars,
    {
        let ghost pv = tokens_view(self.pile@);
        let n = self.rs.len();
        if n == 0 {
            return Step::Halted;
        }
        let (w, ip) = self.rs[n - 1];
        let (len, tok) = match &self.dict[w].1 {
            ZfProc::User(body) => {
                if ip >= body.len() {
                    (body.len(), None)
                } else {
                    (body.len(), Some(body[ip].copy()))
                }
            },
            ZfProc::Builtin(_) => {
                proof {
                    assert(false);
                }
                (0, None)
            },
        };
        assert(len == top_body(self.dict_view(), self.rs@).len());
        match tok {
            None => {
                self.rs.pop();
                if self.rs.len() > 0 {
                    self.bump();
                }
                Step::Stepped
            },
            Some(t) => {
                assert(t@ == top_body(self.dict_view(), self.rs@)[ip as int]);
                match t {
                    ZfToken::Nop => {
                        self.bump();
                        Step::Stepped
                    },
                    ZfToken::Symbol(s) => {
                        match &self.dict[s].1 {
                            ZfProc::Builtin(b) => Step::CallBuiltin(*b),
                            ZfProc::User(_) => {
                                self.rs.push((s, 0));
                                Step::Stepped
                            },
                        }
                    },
                    ZfToken::SymbRef(i) => {
                        self.pile.push(ZfToken::Symbol(i));
                        assert(tokens_view(self.pile@) =~= pv.push(TokenView::Symbol(i)));
                        self.bump();
                        Step::Stepped
                    },
                    other => {
                        let ghost tv = other@;
                        self.pile.push(other);
                        assert(tokens_view(self.pile@) =~= pv.push(tv));
                        self.bump();
                        Step::Stepped
                    },
                }
            },
        }
    }

    /// Finishes a step whose primitive has run and returned `jumped`: unless
    /// the primitive moved the pointer or changed the return stack itself
    /// (`jumped`), the pointer of the top frame moves to the next token.
    pub fn after_builtin(&mut self, jumped: bool)
        requires
            !jumped ==> old(self).rs@.len() > 0 && old(self).rs@.last().1 < usize::MAX,
        ensures
            final(self).rs@ == if jumped {
                old(self).rs@
            } else {
                bump_top(old(self).rs@)
            },
            final(self).pile == old(self).pile,
            final(self).dict == old(self).dict,
            final(self).vars == old(self).vars,
    {
        if !jumped {
            self.bump();
        }
    }
}

} // verus!
