//! The fixed vocabularies of the heuristics: sentiment words, category names
//! and tag names.

use crate::index::Words;
use vstd::prelude::*;

verus! {

/// Words that count for a positive sentiment.
pub open spec fn positive_words() -> Words {
    seq!["iyi"@, "güzel"@, "harika"@, "muhteşem"@]
}

/// Words that count for a negative sentiment.
pub open spec fn negative_words() -> Words {
    seq!["kötü"@, "berbat"@, "korkunç"@, "üzgün"@]
}

/// The category names, in the order in which they are reported.
pub open spec fn category_names() -> Words {
    seq!["iş"@, "kişisel"@, "alışveriş"@, "sağlık"@, "eğitim"@]
}

/// The tag names, in the order in which they are suggested.
pub open spec fn tag_names() -> Words {
    seq!["acil"@, "önemli"@, "toplantı"@, "proje"@, "görev"@]
}

/// The vocabularies, loaded once and then only read.
pub struct Lexicons {
    pub positive: Vec<String>,
    pub negative: Vec<String>,
    pub categories: Vec<String>,
    pub tags: Vec<String>,
}

impl Lexicons {
    /// Whether each list holds exactly its fixed words, in their order.
    pub open spec fn is_standard(&self) -> bool {
        &&& self.positive.deep_view() == positive_words()
        &&& self.negative.deep_view() == negative_words()
        &&& self.categories.deep_view() == category_names()
        &&& self.tags.deep_view() == tag_names()
    }

    /// Builds the vocabularies.
    pub fn load() -> (lexicons: Lexicons)
        ensures
            lexicons.is_standard(),
    {
        let mut positive: Vec<String> = Vec::new();
        positive.push("iyi".to_owned());
        positive.push("güzel".to_owned());
        positive.push("harika".to_owned());
        positive.push("muhteşem".to_owned());
        assert(positive.deep_view() =~= positive_words());
        let mut negative: Vec<String> = Vec::new();
        negative.push("kötü".to_owned());
        negative.push("berbat".to_owned());
        negative.push("korkunç".to_owned());
        negative.push("üzgün".to_owned());
        assert(negative.deep_view() =~= negative_words());
        let mut categories: Vec<String> = Vec::new();
        categories.push("iş".to_owned());
        categories.push("kişisel".to_owned());
        categories.push("alışveriş".to_owned());
        categories.push("sağlık".to_owned());
        categories.push("eğitim".to_owned());
        assert(categories.deep_view() =~= category_names());
        let mut tags: Vec<String> = Vec::new();
        tags.push("acil".to_owned());
        tags.push("önemli".to_owned());
        tags.push("toplantı".to_owned());
        tags.push("proje".to_owned());
        tags.push("görev".to_owned());
        assert(tags.deep_view() =~= tag_names());
        Lexicons { positive, negative, categories, tags }
    }
}

} // verus!
