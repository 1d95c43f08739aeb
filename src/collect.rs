use vstd::prelude::*;
use crate::text::{paths_equal, same_text, trim_text, trimmed};

verus! {

/// One suggested replacement taken from a diagnostic: the file it applies to and,
/// if the diagnostic offers one, the replacement text.
#[derive(Debug, PartialEq, Eq)]
pub struct Suggestion {
    pub file_name: String,
    pub replacement: Option<String>,
}

/// Whether a replacement is taken: it is for the target file, it is present, and no
/// text accepted so far trims to the same text.
pub open spec fn accepts(acc: Seq<Seq<char>>, for_target: bool, text: Option<Seq<char>>) -> bool {
    &&& for_target
    &&& text is Some
    &&& forall|i: int| 0 <= i < acc.len() ==> trimmed(#[trigger] acc[i]) != trimmed(text->0)
}

/// The accepted texts after one replacement is offered.
pub open spec fn after_offer(acc: Seq<Seq<char>>, for_target: bool, text: Option<Seq<char>>) -> Seq<Seq<char>> {
    if accepts(acc, for_target, text) {
        acc.push(text->0)
    } else {
        acc
    }
}

/// No two accepted texts trim to the same text.
pub open spec fn distinct_trimmed(acc: Seq<Seq<char>>) -> bool {
    forall|i: int, j: int| 0 <= i < j < acc.len() ==> trimmed(#[trigger] acc[i]) != trimmed(#[trigger] acc[j])
}

pub open spec fn text_view(t: Option<String>) -> Option<Seq<char>> {
    match t {
        Some(r) => Some(r@),
        None => None,
    }
}

/// Suggested imports for one target file, deduplicated by trimmed text, in the order
/// first seen.
#[derive(Debug, PartialEq, Eq)]
pub struct AutoImports {
    pub target: String,
    pub accepted: Vec<String>,
}

impl AutoImports {
    pub open spec fn texts(&self) -> Seq<Seq<char>> {
        self.accepted@.map_values(|s: String| s@)
    }

    pub fn new(target: String) -> (r: AutoImports)
        ensures
            r.target@ == target@,
            r.texts() == Seq::<Seq<char>>::empty(),
    {
        let r = AutoImports { target, accepted: Vec::new() };
        assert(r.texts() =~= Seq::<Seq<char>>::empty());
        r
    }

    /// Offers a replacement text whose file has already been compared with the target;
    /// the result says whether it was accepted. Accepted texts stay pairwise distinct
    /// once trimmed.
    pub fn offer_checked(&mut self, for_target: bool, text: Option<String>) -> (r: bool)
        ensures
            r == accepts(old(self).texts(), for_target, text_view(text)),
            final(self).texts() == after_offer(old(self).texts(), for_target, text_view(text)),
            final(self).target == old(self).target,
            distinct_trimmed(old(self).texts()) ==> distinct_trimmed(final(self).texts()),
    {
        if !for_target {
            return false;
        }
        let ghost tv = text_view(text);
        match text {
            None => false,
            Some(value) => {
                let t = trim_text(value.as_str());
                let mut i: usize = 0;
                while i < self.accepted.len()
                    invariant
                        i <= self.accepted.len(),
                        *self == *old(self),
                        t@ == trimmed(value@),
                        tv == Some(value@),
                        tv == text_view(text),
                        for_target,
                        forall|k: int| 0 <= k < i ==> trimmed(#[trigger] self.texts()[k]) != trimmed(value@),
                    decreases self.accepted.len() - i,
                {
                    assert(self.texts()[i as int] == self.accepted@[i as int]@);
                    if same_text(trim_text(self.accepted[i].as_str()), t) {
                        assert(trimmed(old(self).texts()[i as int]) == trimmed(value@));
                        return false;
                    }
                    i = i + 1;
                }
                let ghost before = self.texts();
                self.accepted.push(value);
                assert(self.texts() =~= before.push(value@));
                proof {
                    let a = self.texts();
                    if distinct_trimmed(before) {
                        assert forall|i: int, j: int| 0 <= i < j < a.len() implies trimmed(#[trigger] a[i])
                            != trimmed(#[trigger] a[j]) by {
                            if j == before.len() {
                                assert(trimmed(before[i]) != trimmed(value@));
                            } else {
                                assert(trimmed(before[i]) != trimmed(before[j]));
                            }
                        }
                    }
                }
                true
            },
        }
    }

    /// Offers one suggestion, comparing its file with the target as paths.
    pub fn offer(&mut self, s: Suggestion) -> (r: bool)
        ensures
            final(self).texts() == (if r { old(self).texts().push(text_view(s.replacement)->0) } else { old(self).texts() }),
            r ==> accepts(old(self).texts(), true, text_view(s.replacement)),
            s.file_name@ == old(self).target@ ==> r == accepts(old(self).texts(), true, text_view(s.replacement)),
            final(self).target == old(self).target,
            distinct_trimmed(old(self).texts()) ==> distinct_trimmed(final(self).texts()),
    {
        let for_target = paths_equal(self.target.as_str(), s.file_name.as_str());
        self.offer_checked(for_target, s.replacement)
    }
}

/// Offering a text that trims like one just accepted changes nothing, whatever
/// whitespace surrounds either.
pub proof fn lemma_duplicate_rejected(acc: Seq<Seq<char>>, first: Seq<char>, second: Seq<char>)
    requires
        trimmed(first) == trimmed(second),
    ensures
        accepts(acc, true, Some(first)) ==> !accepts(after_offer(acc, true, Some(first)), true, Some(second)),
        after_offer(after_offer(acc, true, Some(first)), true, Some(second)).len() <= acc.len() + 1,
{
    if accepts(acc, true, Some(first)) {
        let a = after_offer(acc, true, Some(first));
        assert(a[acc.len() as int] == first);
    }
}

/// A replacement for a file other than the target is never accepted.
pub proof fn lemma_other_file_ignored(acc: Seq<Seq<char>>, text: Option<Seq<char>>)
    ensures
        !accepts(acc, false, text),
        after_offer(acc, false, text) == acc,
{
}

} // verus!
