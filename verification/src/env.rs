use std::collections::HashMap;
use vstd::prelude::*;

use crate::text::str_eq;
use crate::token::{tokens_view, TokenView, ZfToken};

verus! {

/// The body of a word: either a primitive, which the program around the
/// library supplies and which is known here by its number, or a list of
/// tokens.
#[derive(Clone)]
pub enum ZfProc {
    Builtin(usize),
    User(Vec<ZfToken>),
}

/// The mathematical value of a `ZfProc`.
pub enum ProcView {
    Builtin(usize),
    User(Seq<TokenView>),
}

impl View for ZfProc {
    type V = ProcView;

    open spec fn view(&self) -> ProcView {
        match self {
            ZfProc::Builtin(b) => ProcView::Builtin(*b),
            ZfProc::User(body) => ProcView::User(tokens_view(body@)),
        }
    }
}

/// The dictionary as a sequence of (name, body) pairs.
pub type DictView = Seq<(Seq<char>, ProcView)>;

pub open spec fn entry_view(e: (String, ZfProc)) -> (Seq<char>, ProcView) {
    (e.0@, e.1@)
}

pub open spec fn dict_view(d: Seq<(String, ZfProc)>) -> DictView {
    d.map_values(|e: (String, ZfProc)| entry_view(e))
}

/// The state of a zf program: the data stack (`pile`), the variables, the
/// dictionary of words, and the return stack of (word, instruction pointer)
/// frames.
#[derive(Clone)]
pub struct ZfEnv {
    pub pile: Vec<ZfToken>,
    pub vars: HashMap<String, ZfToken>,
    pub dict: Vec<(String, ZfProc)>,
    pub rs: Vec<(usize, usize)>,
}

/// The index of the first word of `d` named `name`, if there is one.
pub open spec fn find_word(d: DictView, name: Seq<char>) -> Option<int>
    decreases d.len(),
{
    if d.len() == 0 {
        None
    } else {
        match find_word(d.drop_last(), name) {
            Some(j) => Some(j),
            None => if d.last().0 == name {
                Some(d.len() - 1)
            } else {
                None
            },
        }
    }
}

/// `addword` on a dictionary: the new dictionary and the index of the word.
/// A word that is already there gets the new body in place; a new word goes
/// at the end.
pub open spec fn add_word(d: DictView, name: Seq<char>, body: Seq<TokenView>) -> (DictView, int) {
    match find_word(d, name) {
        Some(i) => (d.update(i, (d[i].0, ProcView::User(body))), i),
        None => (d.push((name, ProcView::User(body))), d.len() as int),
    }
}

pub open spec fn opt_index(o: Option<usize>) -> Option<int> {
    match o {
        Some(i) => Some(i as int),
        None => None,
    }
}

/// What `find_word` gives: the first index whose name matches, or `None`
/// when no name matches.
pub proof fn lemma_find_word(d: DictView, name: Seq<char>)
    ensures
        match find_word(d, name) {
            Some(j) => 0 <= j < d.len() && d[j].0 == name && forall|k: int|
                0 <= k < j ==> #[trigger] d[k].0 != name,
            None => forall|k: int| 0 <= k < d.len() ==> #[trigger] d[k].0 != name,
        },
    decreases d.len(),
{
    if d.len() > 0 {
        lemma_find_word(d.drop_last(), name);
        assert forall|k: int| 0 <= k < d.len() - 1 implies #[trigger] d[k] == d.drop_last()[k] by {}
    }
}

/// Looking a word up right after `addword` finds the index that `addword`
/// returned, and that entry holds the new body under the given name.
pub proof fn law_find_after_add(d: DictView, name: Seq<char>, body: Seq<TokenView>)
    ensures
        find_word(add_word(d, name, body).0, name) == Some(add_word(d, name, body).1),
        add_word(d, name, body).0[add_word(d, name, body).1] == (name, ProcView::User(body)),
{
    lemma_find_word(d, name);
    let (d2, i) = add_word(d, name, body);
    lemma_find_word(d2, name);
    match find_word(d2, name) {
        Some(j) => {
            if j < i {
                assert(d2[j] == d[j]);
            } else if i < j {
                assert(d2[i].0 == name);
            }
        },
        None => {
            assert(d2[i].0 == name);
        },
    }
}

/// `addword` removes and renames nothing: every word keeps its index and its
/// name, every word but the one written keeps its body, the dictionary grows
/// by at most one word, and every other name is found where it was.
pub proof fn law_add_keeps_others(d: DictView, name: Seq<char>, body: Seq<TokenView>, other: Seq<char>)
    requires
        other != name,
    ensures
        ({
            let (d2, i) = add_word(d, name, body);
            &&& d2.len() == d.len() || d2.len() == d.len() + 1
            &&& 0 <= i < d2.len()
            &&& forall|j: int| 0 <= j < d.len() ==> #[trigger] d2[j].0 == d[j].0
            &&& forall|j: int| 0 <= j < d.len() && j != i ==> #[trigger] d2[j] == d[j]
            &&& find_word(d2, other) == find_word(d, other)
        }),
{
    lemma_find_word(d, name);
    lemma_find_word(d, other);
    let (d2, i) = add_word(d, name, body);
    lemma_find_word(d2, other);
    match find_word(d, other) {
        Some(j) => {
            assert(d2[j].0 == other);
            match find_word(d2, other) {
                Some(j2) => {
                    if j2 < j {
                        assert(d[j2].0 == other);
                    } else if j < j2 {
                        assert(d2[j].0 == other);
                    }
                },
                None => {},
            }
        },
        None => {
            match find_word(d2, other) {
                Some(j2) => {
                    if j2 < d.len() {
                        assert(d[j2].0 == other);
                    }
                },
                None => {},
            }
        },
    }
}

/// Writing a word twice is the same as writing it once with the second body:
/// the second write goes to the same index and replaces the first body.
pub proof fn law_add_twice(d: DictView, name: Seq<char>, b1: Seq<TokenView>, b2: Seq<TokenView>)
    ensures
        add_word(add_word(d, name, b1).0, name, b2) == add_word(d, name, b2),
{
    law_find_after_add(d, name, b1);
    lemma_find_word(d, name);
    let (d1, i1) = add_word(d, name, b1);
    assert(add_word(d1, name, b2).0 =~= add_word(d, name, b2).0);
}

impl ZfEnv {
    pub open spec fn dict_view(&self) -> DictView {
        dict_view(self.dict@)
    }

    /// An empty environment: no words, empty stacks, no variables.
    pub fn new() -> (r: ZfEnv)
        ensures
            r.pile@.len() == 0,
            r.dict@.len() == 0,
            r.rs@.len() == 0,
            r.vars@ == Map::<String, ZfToken>::empty(),
    {
        ZfEnv { pile: Vec::new(), vars: HashMap::new(), dict: Vec::new(), rs: Vec::new() }
    }

    /// The index of the first word named `name`, or `None`.
    pub fn findword(&self, name: &str) -> (r: Option<usize>)
        ensures
            opt_index(r) == find_word(self.dict_view(), name@),
    {
        let ghost d = self.dict_view();
        let mut i: usize = 0;
        while i < self.dict.len()
            invariant
                i <= self.dict@.len(),
                d == self.dict_view(),
                find_word(d.subrange(0, i as int), name@) == None::<int>,
            decreases self.dict.len() - i,
        {
            assert(d.subrange(0, i + 1).drop_last() =~= d.subrange(0, i as int));
            if str_eq(self.dict[i].0.as_str(), name) {
                proof {
                    lemma_find_word(d, name@);
                    lemma_find_word(d.subrange(0, i as int), name@);
                    assert(d[i as int].0 == name@);
                    assert forall|k: int| 0 <= k < i implies #[trigger] d[k].0 != name@ by {
                        assert(d.subrange(0, i as int)[k] == d[k]);
                    }
                }
                return Some(i);
            }
            i = i + 1;
        }
        assert(d.subrange(0, i as int) =~= d);
        None
    }

    /// Gives the word `name` the body `body`, adding the word at the end of
    /// the dictionary when there is none of that name, and returns its index.
    pub fn addword(&mut self, name: String, body: Vec<ZfToken>) -> (r: usize)
        ensures
            final(self).dict_view() == add_word(old(self).dict_view(), name@, tokens_view(body@)).0,
            r as int == add_word(old(self).dict_view(), name@, tokens_view(body@)).1,
            final(self).pile == old(self).pile,
            final(self).vars == old(self).vars,
            final(self).rs == old(self).rs,
    {
        let ghost d = self.dict_view();
        let ghost b = tokens_view(body@);
        proof {
            lemma_find_word(d, name@);
        }
        match self.findword(name.as_str()) {
            Some(i) => {
                let entry_name = self.dict[i].0.clone();
                self.dict.set(i, (entry_name, ZfProc::User(body)));
                assert(self.dict_view() =~= d.update(i as int, (d[i as int].0, ProcView::User(b))));
                i
            },
            None => {
                let n = self.dict.len();
                self.dict.push((name, ZfProc::User(body)));
                assert(self.dict_view() =~= d.push((name@, ProcView::User(b))));
                n
            },
        }
    }
}


impl Default for ZfEnv {
    /// An empty environment, as `ZfEnv::new` makes it.
    fn default() -> (r: ZfEnv)
        ensures
            r.pile@.len() == 0,
            r.dict@.len() == 0,
            r.rs@.len() == 0,
            r.vars@ == Map::<String, ZfToken>::empty(),
    {
        ZfEnv::new()
    }
}

} // verus!
