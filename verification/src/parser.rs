//! A parser: named rules and the rule to start from.

use vstd::prelude::*;
use crate::expr::{Expr, ParseExpr};
use crate::text::same_text;

verus! {

/// A set of grammar rules, each a name with its expression and capture flag, and
/// the name of the rule that parsing starts from.
///
/// Where a name is defined more than once, the last definition counts.
pub struct Parser<'a> {
    pub rules: Vec<(&'a str, (ParseExpr<'a>, bool))>,
    pub start: &'a str,
}

/// The mathematical content of one rule definition.
pub struct RuleDef {
    pub name: Seq<char>,
    pub expr: Expr,
    /// Whether the rule collapses what it matched into a single stretch of text.
    pub capture: bool,
}

/// The mathematical content of a [`Parser`].
pub struct Grammar {
    pub rules: Seq<RuleDef>,
    pub start: Seq<char>,
}

/// The content of one rule definition.
pub open spec fn rule_def<'a>(entry: (&'a str, (ParseExpr<'a>, bool))) -> RuleDef {
    RuleDef { name: entry.0@, expr: entry.1.0@, capture: entry.1.1 }
}

/// The contents of a sequence of rule definitions.
pub open spec fn rule_defs<'a>(entries: Seq<(&'a str, (ParseExpr<'a>, bool))>) -> Seq<RuleDef> {
    entries.map_values(|entry: (&'a str, (ParseExpr<'a>, bool))| rule_def(entry))
}

impl<'a> View for Parser<'a> {
    type V = Grammar;

    open spec fn view(&self) -> Grammar {
        Grammar { rules: rule_defs(self.rules@), start: self.start@ }
    }
}

/// The index of the last of the first `k` definitions that defines `name`.
pub open spec fn last_definition(rules: Seq<RuleDef>, name: Seq<char>, k: int) -> Option<int>
    decreases k,
{
    if k <= 0 {
        None
    } else if rules[k - 1].name == name {
        Some(k - 1)
    } else {
        last_definition(rules, name, k - 1)
    }
}

impl Grammar {
    /// The index of the definition that `name` refers to.
    pub open spec fn find(self, name: Seq<char>) -> Option<int> {
        last_definition(self.rules, name, self.rules.len() as int)
    }

    /// Every choice in every rule offers at least one alternative.
    pub open spec fn well_formed(self) -> bool {
        forall|i: int| 0 <= i < self.rules.len() ==> (#[trigger] self.rules[i]).expr.well_formed()
    }

    /// Every rule's expression is fit to be evaluated.
    pub open spec fn usable(self) -> bool {
        forall|i: int| 0 <= i < self.rules.len() ==> (#[trigger] self.rules[i]).expr.usable()
    }
}

/// A definition that is found lies within the definitions and bears the name.
pub proof fn lemma_last_definition(rules: Seq<RuleDef>, name: Seq<char>, k: int)
    requires
        0 <= k <= rules.len(),
    ensures
        match last_definition(rules, name, k) {
            Some(i) => 0 <= i < k && rules[i].name == name,
            None => forall|j: int| 0 <= j < k ==> (#[trigger] rules[j]).name != name,
        },
    decreases k,
{
    if k > 0 && rules[k - 1].name != name {
        lemma_last_definition(rules, name, k - 1);
    }
}

impl<'a> Parser<'a> {
    /// The index of the definition that `name` refers to, if there is one.
    pub fn lookup(&self, name: &str) -> (r: Option<usize>)
        ensures
            match r {
                Some(i) => self@.find(name@) == Some(i as int) && i < self.rules.len(),
                None => self@.find(name@) is None,
            },
    {
        let mut k: usize = self.rules.len();
        while k > 0
            invariant
                k <= self.rules.len(),
                self@.find(name@) == last_definition(self@.rules, name@, k as int),
            decreases k,
        {
            assert(self@.rules[k - 1] == rule_def(self.rules@[k - 1]));
            if same_text(self.rules[k - 1].0, name) {
                return Some(k - 1);
            }
            k = k - 1;
        }
        None
    }
}

} // verus!
