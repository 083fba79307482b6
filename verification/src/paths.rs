//! Hierarchical paths that name the variables of a state.

use crate::order::{
    agree_until, lemma_lex_le_antisym, lemma_lex_le_refl, lemma_lex_le_skips_agreement,
    lemma_lex_le_total, lemma_lex_le_trans, lemma_text_order_total, lex_le, text_le, text_order,
    text_rank_of, Rank,
};
use vstd::prelude::*;
use vstd::std_specs::cmp::PartialEqSpecImpl;
use vstd::std_specs::convert::FromSpecImpl;
use vstd::string::StringExecFns;

verus! {

/// What a path stands for: its segments from the root down, each a text.
pub type PathView = Seq<Seq<char>>;

/// A hierarchical identifier: the segments from the root down.
#[derive(Debug, Hash)]
pub struct SPPath {
    pub path: Vec<String>,
}

impl View for SPPath {
    type V = PathView;

    open spec fn view(&self) -> PathView {
        self.path@.map_values(|segment: String| segment@)
    }
}

/// The string form of a path: its segments joined by `/`.
pub open spec fn render(path: PathView) -> Seq<char>
    decreases path.len(),
{
    if path.len() == 0 {
        Seq::empty()
    } else if path.len() == 1 {
        path[0]
    } else {
        render(path.drop_last()) + seq!['/'] + path.last()
    }
}

/// Whether `child` lies strictly below `ancestor` in the hierarchy: the
/// segments of `ancestor` are the first segments of `child`, and `child` has
/// more.
pub open spec fn is_descendant(child: PathView, ancestor: PathView) -> bool {
    ancestor.len() < child.len() && ancestor.is_prefix_of(child)
}

/// The order of paths: by string form, and among paths with the same string
/// form lexicographically by segments.
pub open spec fn path_le(a: PathView, b: PathView) -> bool {
    if render(a) == render(b) {
        lex_le(a, b, text_order())
    } else {
        text_le(render(a), render(b))
    }
}

/// Strict form of `path_le`.
pub open spec fn path_lt(a: PathView, b: PathView) -> bool {
    a != b && path_le(a, b)
}

/// Three-way form of `path_le`.
pub open spec fn path_rank(a: PathView, b: PathView) -> Rank {
    if a == b {
        Rank::Same
    } else if path_le(a, b) {
        Rank::Before
    } else {
        Rank::After
    }
}

/// Every path stands in order to itself.
pub proof fn lemma_path_le_refl(a: PathView)
    ensures
        path_le(a, a),
{
    lemma_lex_le_refl(a, text_order());
}

/// Two paths that come before each other are the same path.
pub proof fn lemma_path_le_antisym(a: PathView, b: PathView)
    requires
        path_le(a, b),
        path_le(b, a),
    ensures
        a == b,
{
    lemma_text_order_total();
    if render(a) == render(b) {
        lemma_lex_le_antisym(a, b, text_order());
    } else {
        assert(text_order()(render(a), render(b)) && text_order()(render(b), render(a)));
    }
}

/// The order of paths is transitive.
pub proof fn lemma_path_le_trans(a: PathView, b: PathView, c: PathView)
    requires
        path_le(a, b),
        path_le(b, c),
    ensures
        path_le(a, c),
{
    lemma_text_order_total();
    let le = text_order();
    assert(le(render(a), render(a)));
    assert(le(render(b), render(b)));
    assert(le(render(a), render(b)));
    assert(le(render(b), render(c)));
    assert(le(render(a), render(c)));
    if render(a) == render(c) {
        assert(le(render(c), render(b)));
        assert(render(a) == render(b));
        lemma_lex_le_trans(a, b, c, text_order());
    }
}

/// Of two paths one comes before the other.
pub proof fn lemma_path_le_total(a: PathView, b: PathView)
    ensures
        path_le(a, b) || path_le(b, a),
{
    lemma_text_order_total();
    if render(a) == render(b) {
        lemma_lex_le_total(a, b, text_order());
    } else {
        assert(text_order()(render(a), render(b)) || text_order()(render(b), render(a)));
    }
}

/// Paths are listed in the order of their string forms.
pub proof fn lemma_path_le_orders_string_forms(a: PathView, b: PathView)
    requires
        path_le(a, b),
    ensures
        text_le(render(a), render(b)),
{
    lemma_text_order_total();
    assert(text_order()(render(a), render(a)));
}

/// Putting the same parent in front of two different paths gives two
/// different paths.
pub proof fn lemma_prefix_injective(parent: PathView, a: PathView, b: PathView)
    requires
        parent + a == parent + b,
    ensures
        a == b,
{
    assert((parent + a).len() == parent.len() + a.len());
    assert((parent + b).len() == parent.len() + b.len());
    assert forall|i: int| 0 <= i < a.len() implies a[i] == b[i] by {
        assert(a[i] == (parent + a)[parent.len() + i]);
        assert(b[i] == (parent + b)[parent.len() + i]);
    }
    assert(a =~= b);
}

impl Clone for SPPath {
    fn clone(&self) -> (copy: Self)
        ensures
            copy@ == self@,
    {
        let mut segments: Vec<String> = Vec::new();
        let mut i: usize = 0;
        while i < self.path.len()
            invariant
                i <= self.path.len(),
                segments.len() == i,
                forall|j: int| 0 <= j < i ==> segments@[j]@ == self.path@[j]@,
            decreases self.path.len() - i,
        {
            segments.push(self.path[i].clone());
            i += 1;
        }
        let copy = SPPath { path: segments };
        assert(copy@ =~= self@);
        copy
    }
}

impl PartialEq for SPPath {
    fn eq(&self, other: &Self) -> (same: bool) {
        if self.path.len() != other.path.len() {
            return false;
        }
        let mut i: usize = 0;
        while i < self.path.len()
            invariant
                self.path.len() == other.path.len(),
                agree_until(self@, other@, i as int),
            decreases self.path.len() - i,
        {
            if self.path[i] != other.path[i] {
                assert(self@[i as int] != other@[i as int]);
                return false;
            }
            i += 1;
        }
        assert(self@ =~= other@);
        true
    }
}

impl Eq for SPPath {

}

impl PartialEqSpecImpl for SPPath {
    open spec fn obeys_eq_spec() -> bool {
        true
    }

    open spec fn eq_spec(&self, other: &Self) -> bool {
        self@ == other@
    }
}

impl From<Vec<String>> for SPPath {
    fn from(segments: Vec<String>) -> (path: SPPath) {
        SPPath { path: segments }
    }
}

impl FromSpecImpl<Vec<String>> for SPPath {
    open spec fn obeys_from_spec() -> bool {
        true
    }

    open spec fn from_spec(segments: Vec<String>) -> SPPath {
        SPPath { path: segments }
    }
}

impl SPPath {
    /// The path without segments, the root of the hierarchy.
    pub fn new() -> (path: SPPath)
        ensures
            path@ == Seq::<Seq<char>>::empty(),
    {
        let path = SPPath { path: Vec::new() };
        assert(path@ =~= Seq::<Seq<char>>::empty());
        path
    }

    /// The path with the given segments, from the root down.
    pub fn from_slice(segments: &[&str]) -> (path: SPPath)
        ensures
            path@ == segments@.map_values(|segment: &str| segment@),
    {
        let mut owned: Vec<String> = Vec::new();
        let mut i: usize = 0;
        while i < segments.len()
            invariant
                i <= segments.len(),
                owned.len() == i,
                forall|j: int| 0 <= j < i ==> owned@[j]@ == segments@[j]@,
            decreases segments.len() - i,
        {
            owned.push(segments[i].to_owned());
            i += 1;
        }
        let path = SPPath { path: owned };
        assert(path@ =~= segments@.map_values(|segment: &str| segment@));
        path
    }

    /// Whether this path lies strictly below `other`.
    pub fn is_child_of(&self, other: &SPPath) -> (below: bool)
        ensures
            below == is_descendant(self@, other@),
    {
        if other.path.len() >= self.path.len() {
            return false;
        }
        let mut i: usize = 0;
        while i < other.path.len()
            invariant
                other.path.len() < self.path.len(),
                agree_until(self@, other@, i as int),
            decreases other.path.len() - i,
        {
            if self.path[i] != other.path[i] {
                assert(self@[i as int] != other@[i as int]);
                return false;
            }
            i += 1;
        }
        assert(other@ =~= self@.subrange(0, other@.len() as int));
        true
    }

    /// Puts the segments of `parent` in front of this path.
    pub fn add_parent_path(&mut self, parent: &SPPath)
        ensures
            final(self)@ == parent@ + old(self)@,
    {
        let mut joined = parent.clone();
        joined.path.append(&mut self.path);
        assert(joined@ =~= parent@ + old(self)@);
        self.path = joined.path;
    }

    /// The string form of the path: its segments joined by `/`.
    pub fn to_string(&self) -> (text: String)
        ensures
            text@ == render(self@),
    {
        let mut text = String::new();
        let mut i: usize = 0;
        while i < self.path.len()
            invariant
                i <= self.path.len(),
                text@ == render(self@.take(i as int)),
            decreases self.path.len() - i,
        {
            proof {
                reveal_strlit("/");
                assert(self@.take(i + 1).drop_last() =~= self@.take(i as int));
                assert(self@.take(i + 1).last() == self@[i as int]);
            }
            if i > 0 {
                text.append("/");
                assert("/"@ =~= seq!['/']);
            } else {
                assert(render(self@.take(1)) == self@[0]);
                assert(Seq::<char>::empty() + self@[0] =~= self@[0]);
            }
            text.append(self.path[i].as_str());
            i += 1;
        }
        assert(self@.take(i as int) =~= self@);
        text
    }

    /// Compares two paths whose string forms are at hand.
    pub fn rank_with_text(&self, text: &str, other: &SPPath, other_text: &str) -> (rank: Rank)
        requires
            text@ == render(self@),
            other_text@ == render(other@),
        ensures
            rank == path_rank(self@, other@),
    {
        match text_rank_of(text, other_text) {
            Rank::Before => Rank::Before,
            Rank::After => Rank::After,
            Rank::Same => self.rank_by_segments(other),
        }
    }

    /// Compares two paths in the order of paths.
    pub fn rank(&self, other: &SPPath) -> (rank: Rank)
        ensures
            rank == path_rank(self@, other@),
    {
        let text = self.to_string();
        let other_text = other.to_string();
        self.rank_with_text(text.as_str(), other, other_text.as_str())
    }

    /// Compares two paths lexicographically by their segments.
    fn rank_by_segments(&self, other: &SPPath) -> (rank: Rank)
        ensures
            rank == crate::order::lex_rank(self@, other@, text_order()),
    {
        let mut i: usize = 0;
        while i < self.path.len() && i < other.path.len()
            invariant
                agree_until(self@, other@, i as int),
            decreases self.path.len() - i,
        {
            let here = text_rank_of(self.path[i].as_str(), other.path[i].as_str());
            proof {
                lemma_lex_le_skips_agreement(self@, other@, text_order(), i as int);
            }
            match here {
                Rank::Before => {
                    return Rank::Before;
                },
                Rank::After => {
                    return Rank::After;
                },
                Rank::Same => {},
            }
            i += 1;
        }
        proof {
            lemma_lex_le_skips_agreement(self@, other@, text_order(), i as int);
        }
        if self.path.len() == other.path.len() {
            assert(self@ =~= other@);
            Rank::Same
        } else if self.path.len() < other.path.len() {
            Rank::Before
        } else {
            Rank::After
        }
    }
}

} // verus!
