//! The finished analysis of one template.

use vstd::prelude::*;

verus! {

use crate::ast::{stmt_events, Stmt};
use crate::shape::{build_nested_object, build_shape, DataModel, Shape, TemplateData};
use crate::table::{clone_attr_table, clone_str_pairs, clone_strings};
use crate::tracker::{empty_model, track_all, TrackerModel, VariableTracker};
use crate::walk::collect_variables;

/// Structured results of analyzing one template.
#[derive(Debug)]
pub struct TemplateAnalysis {
    /// Base names the caller must supply, in first-observation order.
    pub external_vars: Vec<String>,
    /// Names the template defines itself, in first-observation order.
    pub internal_vars: Vec<String>,
    /// Loop variable name -> the iterable it ranges over.
    pub loop_vars: Vec<(String, String)>,
    /// The inferred nested shape of the data the template expects.
    pub object_shapes: Shape,
}

/// The shape builder's input as carved out of a tracker state.
pub open spec fn data_of(t: TrackerModel) -> DataModel {
    DataModel {
        internals: t.internals,
        externals: t.externals,
        loops: t.loops,
        attrs: t.attrs,
        aliases: t.aliases,
    }
}

impl VariableTracker {
    /// Converts the final tracker state into the analysis result,
    /// running the shape builder once.
    pub fn to_analysis(&self) -> (r: TemplateAnalysis)
        ensures
            r.external_vars.deep_view() == self@.externals,
            r.internal_vars.deep_view() == self@.internals,
            r.loop_vars.deep_view() == self@.loops,
            r.object_shapes@ == build_shape(data_of(self@)),
    {
        let data = TemplateData {
            internal_vars: clone_strings(&self.internal_vars),
            external_vars: clone_strings(&self.external_vars),
            loop_vars: clone_str_pairs(&self.loop_vars),
            object_attrs: clone_attr_table(&self.object_attrs),
            object_aliases: clone_str_pairs(&self.object_aliases),
        };
        let object_shapes = build_nested_object(&data);
        proof {
            assert(data@ =~~= data_of(self@));
        }
        TemplateAnalysis {
            external_vars: data.external_vars,
            internal_vars: data.internal_vars,
            loop_vars: data.loop_vars,
            object_shapes,
        }
    }
}

/// Analyzes one template syntax tree: walks it with a fresh tracker and
/// returns the classified names and the inferred data shape.
pub fn analyze(root: &Stmt) -> (r: TemplateAnalysis)
    ensures
        r.external_vars.deep_view() == track_all(empty_model(), stmt_events(*root)).externals,
        r.internal_vars.deep_view() == track_all(empty_model(), stmt_events(*root)).internals,
        r.loop_vars.deep_view() == track_all(empty_model(), stmt_events(*root)).loops,
        r.object_shapes@ == build_shape(data_of(track_all(empty_model(), stmt_events(*root)))),
{
    let mut tracker = VariableTracker::new();
    collect_variables(root, &mut tracker);
    tracker.to_analysis()
}

} // verus!
