use vstd::prelude::*;

verus! {

broadcast use vstd::std_specs::vec::group_vec_axioms, vstd::seq::group_seq_axioms;

/// Syntax tree of a pattern, as the parser builds it.
#[derive(Debug)]
pub enum AST {
    Char(char),
    Period,
    Caret,
    Dollar,
    Plus(Box<AST>),
    Star(Box<AST>),
    Question(Box<AST>),
    Or(Box<AST>, Box<AST>),
    Cat(Vec<AST>),
}

/// Mathematical form of an [`AST`]: the same tree, with a sequence of children
/// in place of a vector.
pub enum Re {
    Char(char),
    Period,
    Caret,
    Dollar,
    Plus(Box<Re>),
    Star(Box<Re>),
    Question(Box<Re>),
    Or(Box<Re>, Box<Re>),
    Cat(Seq<Re>),
}

/// The trees of `s`, each in mathematical form.
pub open spec fn views(s: Seq<AST>) -> Seq<Re>
    decreases s, 0nat,
{
    if s.len() == 0 {
        Seq::empty()
    } else {
        views(s.drop_last()).push(s.last().view_rec())
    }
}

impl AST {
    pub open spec fn view_rec(&self) -> Re
        decreases self, 1nat,
    {
        match self {
            AST::Char(c) => Re::Char(*c),
            AST::Period => Re::Period,
            AST::Caret => Re::Caret,
            AST::Dollar => Re::Dollar,
            AST::Plus(e) => Re::Plus(Box::new(e.view_rec())),
            AST::Star(e) => Re::Star(Box::new(e.view_rec())),
            AST::Question(e) => Re::Question(Box::new(e.view_rec())),
            AST::Or(a, b) => Re::Or(Box::new(a.view_rec()), Box::new(b.view_rec())),
            AST::Cat(v) => Re::Cat(views(v@)),
        }
    }
}

impl View for AST {
    type V = Re;

    open spec fn view(&self) -> Re {
        self.view_rec()
    }
}


/// `views` keeps the length and maps each tree to its mathematical form.
pub proof fn lemma_views(s: Seq<AST>)
    ensures
        views(s).len() == s.len(),
        forall|i: int| 0 <= i < s.len() ==> #[trigger] views(s)[i] == s[i].view_rec(),
    decreases s.len(),
{
    if s.len() > 0 {
        lemma_views(s.drop_last());
    }
}

pub proof fn lemma_views_push(s: Seq<AST>, a: AST)
    ensures
        views(s.push(a)) == views(s).push(a@),
{
    assert(s.push(a).drop_last() =~= s);
}

} // verus!
