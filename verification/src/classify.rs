//! The type classifier: decides, from what the external type-resolution and
//! sum-type-registry collaborators report about an initializer's static type,
//! whether the type is a recognized two-variant success/failure shape, and if
//! so which variant carries the success value. Classification is a pure
//! function of the collaborators' answer: no tree identity is retained.

use vstd::prelude::*;

verus! {

/// What the external registry reports of a resolved static type: how many
/// variants the type has, and the name of the variant it considers the
/// success-carrying one, when it can name it.
pub struct SumTypeLookup {
    pub variant_count: usize,
    pub success_variant: Option<Vec<char>>,
}

/// Outcome of classification: either the type is not a recognized two-variant
/// success/failure type, or it is, and this is the success variant's name.
pub enum Classification {
    Unrecognized,
    SuccessVariant(Vec<char>),
}

/// Mathematical model of a classification outcome.
pub enum ClassificationView {
    Unrecognized,
    SuccessVariant(Seq<char>),
}

impl View for Classification {
    type V = ClassificationView;

    open spec fn view(&self) -> ClassificationView {
        match self {
            Classification::Unrecognized => ClassificationView::Unrecognized,
            Classification::SuccessVariant(n) => ClassificationView::SuccessVariant(n@),
        }
    }
}

/// The classification policy: a type qualifies exactly when it was resolved,
/// has exactly two variants, and the registry can name its success variant.
pub open spec fn classify_spec(resolved: Option<SumTypeLookup>) -> ClassificationView {
    match resolved {
        Some(d) => if d.variant_count == 2 {
            match d.success_variant {
                Some(n) => ClassificationView::SuccessVariant(n@),
                None => ClassificationView::Unrecognized,
            }
        } else {
            ClassificationView::Unrecognized
        },
        None => ClassificationView::Unrecognized,
    }
}

/// Length of the classified name; zero when unrecognized.
pub open spec fn cls_len(c: ClassificationView) -> nat {
    match c {
        ClassificationView::Unrecognized => 0,
        ClassificationView::SuccessVariant(n) => n.len(),
    }
}

/// Classifies the collaborators' answer about an expression's static type.
/// An unresolved type is the common, non-error path and classifies as
/// unrecognized, exactly like a resolved type of the wrong shape.
pub fn classify(resolved: Option<SumTypeLookup>) -> (c: Classification)
    ensures
        c@ == classify_spec(resolved),
{
    match resolved {
        Some(d) => if d.variant_count == 2 {
            match d.success_variant {
                Some(n) => Classification::SuccessVariant(n),
                None => Classification::Unrecognized,
            }
        } else {
            Classification::Unrecognized
        },
        None => Classification::Unrecognized,
    }
}

} // verus!
