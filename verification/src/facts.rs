//! What a call did to the workspace, as the runtime is told.
//!
//! Only outputs of the catalog's own tools become facts. What a tool states
//! itself counts; where it states nothing, the facts are derived from what
//! stands in its output.
use crate::registry;
use crate::registry::BuiltinToolDispatcher;
use vstd::prelude::*;

verus! {

/// A file or a directory that a call touched.
#[derive(Debug, Clone)]
pub struct ResourceTouch {
    pub path: String,
    pub revision: Option<String>,
}

/// A touch as a value.
pub struct Touch {
    pub path: Seq<char>,
    pub revision: Option<Seq<char>>,
}

impl View for ResourceTouch {
    type V = Touch;

    open spec fn view(&self) -> Touch {
        Touch {
            path: self.path@,
            revision: match self.revision {
                Some(r) => Some(r@),
                None => None,
            },
        }
    }
}

/// The facts of a call. What is not known is not stated.
#[derive(Debug, Clone)]
pub struct ToolExecutionFacts {
    pub touches: Vec<ResourceTouch>,
    /// Whether the call verified something.
    pub verification: Option<bool>,
    /// Whether the call may have changed the workspace.
    pub mutation_bound: Option<bool>,
}

/// The facts of a call as a value.
pub struct Facts {
    pub touches: Seq<Touch>,
    pub verification: Option<bool>,
    pub mutation_bound: Option<bool>,
}

/// Touches as values.
pub open spec fn touch_views(touches: Seq<ResourceTouch>) -> Seq<Touch> {
    Seq::new(touches.len(), |i: int| touches[i]@)
}

impl View for ToolExecutionFacts {
    type V = Facts;

    open spec fn view(&self) -> Facts {
        Facts {
            touches: touch_views(self.touches@),
            verification: self.verification,
            mutation_bound: self.mutation_bound,
        }
    }
}

/// No facts at all.
pub open spec fn no_facts() -> Facts {
    Facts { touches: Seq::empty(), verification: None, mutation_bound: None }
}

/// The facts that an output bears out.
pub open spec fn derived(touches: Seq<Touch>, verification: bool, mutates: bool) -> Facts {
    Facts { touches, verification: Some(verification), mutation_bound: Some(mutates) }
}

impl ToolExecutionFacts {
    /// No facts at all.
    pub fn empty() -> (f: ToolExecutionFacts)
        ensures
            f@ == no_facts(),
    {
        let f = ToolExecutionFacts { touches: Vec::new(), verification: None, mutation_bound: None };
        assert(touch_views(f.touches@) =~= Seq::empty());
        f
    }

    /// The facts that an output bears out.
    pub fn translate_stamped(
        touches: Vec<ResourceTouch>,
        verification: bool,
        mutates: bool,
    ) -> (f: ToolExecutionFacts)
        ensures
            f@ == derived(touch_views(touches@), verification, mutates),
    {
        ToolExecutionFacts {
            touches,
            verification: Some(verification),
            mutation_bound: Some(mutates),
        }
    }

    /// The facts of a call that verifies nothing and touches nothing in
    /// particular.
    pub fn builtin_bound(mutates: bool) -> (f: ToolExecutionFacts)
        ensures
            f@ == derived(Seq::empty(), false, mutates),
    {
        let touches: Vec<ResourceTouch> = Vec::new();
        assert(touch_views(touches@) =~= Seq::empty());
        Self::translate_stamped(touches, false, mutates)
    }

    /// The facts of a call that verifies nothing and touches one resource:
    /// with its revision, where it has one.
    pub fn touching(path: &str, revision: Option<&str>, mutates: bool) -> (f: ToolExecutionFacts)
        ensures
            f@ == derived(
                seq![
                    Touch {
                        path: path@,
                        revision: match revision {
                            Some(r) => Some(r@),
                            None => None,
                        },
                    },
                ],
                false,
                mutates,
            ),
    {
        let stated = match revision {
            Some(r) => Some(r.to_owned()),
            None => None,
        };
        let mut touches: Vec<ResourceTouch> = Vec::new();
        touches.push(ResourceTouch { path: path.to_owned(), revision: stated });
        assert(touch_views(touches@) =~= seq![touches@[0]@]);
        Self::translate_stamped(touches, false, mutates)
    }
}

/// The facts of an output: none for a tool that the catalog does not own,
/// otherwise what the tool states, and what the output bears out where it
/// states nothing.
pub open spec fn facts_of(owned: bool, native: Option<Facts>, stamped: Facts) -> Facts {
    if !owned {
        no_facts()
    } else {
        match native {
            Some(facts) => facts,
            None => stamped,
        }
    }
}

impl BuiltinToolDispatcher {
    /// The facts of a tool's output. `native` is what the tool states,
    /// `stamped` what its output bears out.
    pub fn execution_facts(
        &self,
        tool_name: &str,
        native: Option<ToolExecutionFacts>,
        stamped: ToolExecutionFacts,
    ) -> (f: ToolExecutionFacts)
        ensures
            f@ == facts_of(
                registry::find(self.tools(), tool_name@) is Some,
                match native {
                    Some(facts) => Some(facts@),
                    None => None,
                },
                stamped@,
            ),
    {
        if self.inspect_tool(tool_name).is_none() {
            return ToolExecutionFacts::empty();
        }
        match native {
            Some(facts) => facts,
            None => stamped,
        }
    }
}

/// A tool that the catalog does not own states nothing, whatever its output
/// claims: neither a touch, nor a verification, nor a bound.
pub proof fn law_a_foreign_tool_states_nothing(native: Option<Facts>, stamped: Facts)
    ensures
        facts_of(false, native, stamped).touches.len() == 0,
        facts_of(false, native, stamped).verification is None,
        facts_of(false, native, stamped).mutation_bound is None,
{
}

/// An owned tool's own statement stands; only where it states nothing does
/// what its output bears out.
pub proof fn law_a_statement_comes_before_a_stamp(native: Option<Facts>, stamped: Facts)
    ensures
        native matches Some(f) ==> facts_of(true, native, stamped) == f,
        native is None ==> facts_of(true, native, stamped) == stamped,
{
}

/// Derived facts hold what they are derived from.
pub proof fn law_derived_facts_hold_their_sources(
    touches: Seq<Touch>,
    verification: bool,
    mutates: bool,
)
    ensures
        derived(touches, verification, mutates).touches == touches,
        derived(touches, verification, mutates).verification == Some(verification),
        derived(touches, verification, mutates).mutation_bound == Some(mutates),
{
}

} // verus!
