use vstd::prelude::*;

use crate::automaton::BoxKind;

verus! {

/// Which kinds of bounding boxes are drawn.
#[derive(Debug, Clone, Copy, PartialEq, Eq, Structural)]
pub struct BoxVisibility {
    pub literal: bool,
    pub concat: bool,
    pub alternation: bool,
    pub kleene_star: bool,
    pub kleene_plus: bool,
    pub optional: bool,
}

impl BoxVisibility {
    /// The visibility flag of `kind`.
    pub open spec fn shows(self, kind: BoxKind) -> bool {
        match kind {
            BoxKind::Literal => self.literal,
            BoxKind::Concat => self.concat,
            BoxKind::Alternation => self.alternation,
            BoxKind::KleeneStar => self.kleene_star,
            BoxKind::KleenePlus => self.kleene_plus,
            BoxKind::Optional => self.optional,
        }
    }

    /// The flags with the one of `kind` flipped.
    pub open spec fn toggled(self, kind: BoxKind) -> Self {
        match kind {
            BoxKind::Literal => BoxVisibility { literal: !self.literal, ..self },
            BoxKind::Concat => BoxVisibility { concat: !self.concat, ..self },
            BoxKind::Alternation => BoxVisibility { alternation: !self.alternation, ..self },
            BoxKind::KleeneStar => BoxVisibility { kleene_star: !self.kleene_star, ..self },
            BoxKind::KleenePlus => BoxVisibility { kleene_plus: !self.kleene_plus, ..self },
            BoxKind::Optional => BoxVisibility { optional: !self.optional, ..self },
        }
    }

    /// Every kind of box is shown.
    pub fn all_visible() -> (r: Self)
        ensures
            forall|k: BoxKind| #[trigger] r.shows(k),
    {
        BoxVisibility {
            literal: true,
            concat: true,
            alternation: true,
            kleene_star: true,
            kleene_plus: true,
            optional: true,
        }
    }

    /// Whether boxes of `kind` are shown.
    pub fn is_visible(&self, kind: BoxKind) -> (r: bool)
        ensures
            r == self.shows(kind),
    {
        match kind {
            BoxKind::Literal => self.literal,
            BoxKind::Concat => self.concat,
            BoxKind::Alternation => self.alternation,
            BoxKind::KleeneStar => self.kleene_star,
            BoxKind::KleenePlus => self.kleene_plus,
            BoxKind::Optional => self.optional,
        }
    }

    /// Flips the visibility of `kind` and leaves the other kinds alone.
    pub fn toggle(&mut self, kind: BoxKind)
        ensures
            *final(self) == old(self).toggled(kind),
            final(self).shows(kind) == !old(self).shows(kind),
            forall|k: BoxKind| k != kind ==> #[trigger] final(self).shows(k) == old(self).shows(k),
    {
        match kind {
            BoxKind::Literal => self.literal = !self.literal,
            BoxKind::Concat => self.concat = !self.concat,
            BoxKind::Alternation => self.alternation = !self.alternation,
            BoxKind::KleeneStar => self.kleene_star = !self.kleene_star,
            BoxKind::KleenePlus => self.kleene_plus = !self.kleene_plus,
            BoxKind::Optional => self.optional = !self.optional,
        }
    }
}

impl Default for BoxVisibility {
    fn default() -> (r: Self)
        ensures
            forall|k: BoxKind| #[trigger] r.shows(k),
    {
        BoxVisibility::all_visible()
    }
}

/// Law: toggling the same kind twice restores every flag.
pub proof fn lemma_toggle_twice(v: BoxVisibility, kind: BoxKind)
    ensures
        v.toggled(kind).toggled(kind) == v,
{
}

/// Law: toggling one kind never changes whether another kind is shown.
pub proof fn lemma_toggle_independent(v: BoxVisibility, kind: BoxKind, other: BoxKind)
    requires
        other != kind,
    ensures
        v.toggled(kind).shows(other) == v.shows(other),
        v.toggled(kind).shows(kind) == !v.shows(kind),
{
}

} // verus!
