//! The session: one store and the working state derived from it. Later
//! stages are cleared whenever an earlier one changes.

use vstd::prelude::*;
use crate::models::{DistillConfig, FieldMap, FilterConfig};
use crate::store::DatasetStore;

verus! {

/// The process-resident working set for one store.
pub struct InnerState {
    pub dataset: Option<DatasetStore>,
    pub store_lines: Vec<String>,
    pub field_map: FieldMap,
    pub filters: FilterConfig,
    pub distill_config: DistillConfig,
    pub filtered_ids: Option<Vec<usize>>,
    pub selected_ids: Option<Vec<usize>>,
    pub removed_ids: Option<Vec<usize>>,
    pub manual_include: Vec<usize>,
    pub manual_exclude: Vec<usize>,
}

impl Default for InnerState {
    /// A session with no dataset and default configuration.
    fn default() -> (r: Self)
        ensures
            r.dataset is None,
            r.store_lines@.len() == 0,
            r.filtered_ids is None,
            r.selected_ids is None,
            r.removed_ids is None,
            r.manual_include@.len() == 0,
            r.manual_exclude@.len() == 0,
    {
        InnerState {
            dataset: None,
            store_lines: Vec::new(),
            field_map: Default::default(),
            filters: Default::default(),
            distill_config: Default::default(),
            filtered_ids: None,
            selected_ids: None,
            removed_ids: None,
            manual_include: Vec::new(),
            manual_exclude: Vec::new(),
        }
    }
}

impl InnerState {
    /// Publish a new store: every later stage is dropped.
    pub fn set_dataset(&mut self, store: DatasetStore, lines: Vec<String>)
        ensures
            final(self).dataset matches Some(d) && d == store,
            final(self).store_lines@ == lines@,
            final(self).filtered_ids is None,
            final(self).selected_ids is None,
            final(self).removed_ids is None,
            final(self).manual_include@.len() == 0,
            final(self).manual_exclude@.len() == 0,
            final(self).field_map == old(self).field_map,
            final(self).filters == old(self).filters,
            final(self).distill_config == old(self).distill_config,
    {
        self.dataset = Some(store);
        self.store_lines = lines;
        self.filtered_ids = None;
        self.selected_ids = None;
        self.removed_ids = None;
        self.manual_include = Vec::new();
        self.manual_exclude = Vec::new();
    }

    /// Publish a filter result: the selection is dropped.
    pub fn set_filter_results(&mut self, filters: FilterConfig, field_map: FieldMap, ids: Vec<usize>)
        ensures
            final(self).filtered_ids matches Some(v) && v@ == ids@,
            final(self).selected_ids is None,
            final(self).removed_ids is None,
            final(self).manual_include@.len() == 0,
            final(self).manual_exclude@.len() == 0,
            final(self).filters == filters,
            final(self).field_map == field_map,
            final(self).dataset == old(self).dataset,
            final(self).store_lines@ == old(self).store_lines@,
            final(self).distill_config == old(self).distill_config,
    {
        self.filters = filters;
        self.field_map = field_map;
        self.filtered_ids = Some(ids);
        self.selected_ids = None;
        self.removed_ids = None;
        self.manual_include = Vec::new();
        self.manual_exclude = Vec::new();
    }

    /// Publish a distillation preview: manual overrides are dropped.
    pub fn set_selection(
        &mut self,
        config: DistillConfig,
        field_map: FieldMap,
        selected: Vec<usize>,
        removed: Vec<usize>,
    )
        ensures
            final(self).selected_ids matches Some(v) && v@ == selected@,
            final(self).removed_ids matches Some(v) && v@ == removed@,
            final(self).manual_include@.len() == 0,
            final(self).manual_exclude@.len() == 0,
            final(self).distill_config == config,
            final(self).field_map == field_map,
            final(self).dataset == old(self).dataset,
            final(self).store_lines@ == old(self).store_lines@,
            final(self).filtered_ids == old(self).filtered_ids,
            final(self).filters == old(self).filters,
    {
        self.distill_config = config;
        self.field_map = field_map;
        self.selected_ids = Some(selected);
        self.removed_ids = Some(removed);
        self.manual_include = Vec::new();
        self.manual_exclude = Vec::new();
    }

    /// Set the field map alone.
    pub fn set_field_map(&mut self, field_map: FieldMap)
        ensures
            final(self).field_map == field_map,
            final(self).dataset == old(self).dataset,
            final(self).store_lines@ == old(self).store_lines@,
            final(self).filtered_ids == old(self).filtered_ids,
            final(self).selected_ids == old(self).selected_ids,
            final(self).removed_ids == old(self).removed_ids,
            final(self).filters == old(self).filters,
            final(self).distill_config == old(self).distill_config,
    {
        self.field_map = field_map;
    }
}

} // verus!
