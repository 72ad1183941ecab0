//! Plain configuration and summary types the engine works with.

use vstd::prelude::*;

verus! {

/// Model of an optional string.
pub open spec fn ov(o: Option<String>) -> Option<Seq<char>> {
    match o {
        Some(s) => Some(s@),
        None => None,
    }
}

/// Named mappings from semantic roles to record field names.
pub struct FieldMap {
    pub instruction: Option<String>,
    pub output: Option<String>,
    pub code: Option<String>,
    pub category: Option<String>,
    pub score: Option<String>,
}

impl Default for FieldMap {
    /// A field map with every role unmapped.
    fn default() -> (r: Self)
        ensures
            r.instruction is None,
            r.output is None,
            r.code is None,
            r.category is None,
            r.score is None,
    {
        FieldMap {
            instruction: None,
            output: None,
            code: None,
            category: None,
            score: None,
        }
    }
}

/// Predicates the filter engine applies.
pub struct FilterConfig {
    pub require_fields: Vec<String>,
    pub min_length: Option<u32>,
    pub max_length: Option<u32>,
    pub include_keywords: Vec<String>,
    pub exclude_keywords: Vec<String>,
    pub category_field: Option<String>,
    pub categories: Vec<String>,
    pub dedupe_exact: bool,
    pub dedupe_fuzzy: bool,
    pub length_scope: String,
    pub keyword_case_sensitive: bool,
}

impl Default for FilterConfig {
    /// Default filtering: exact dedup on, instruction length scope.
    fn default() -> (r: Self)
        ensures
            r.require_fields@.len() == 0,
            r.min_length is None,
            r.max_length is None,
            r.include_keywords@.len() == 0,
            r.exclude_keywords@.len() == 0,
            r.category_field is None,
            r.categories@.len() == 0,
            r.dedupe_exact == true,
            r.dedupe_fuzzy == false,
            r.length_scope@ == "instruction"@,
            r.keyword_case_sensitive == false,
    {
        FilterConfig {
            require_fields: Vec::new(),
            min_length: None,
            max_length: None,
            include_keywords: Vec::new(),
            exclude_keywords: Vec::new(),
            category_field: None,
            categories: Vec::new(),
            dedupe_exact: true,
            dedupe_fuzzy: false,
            length_scope: String::from_str("instruction"),
            keyword_case_sensitive: false,
        }
    }
}

/// Sampling parameters for distillation. `target_percent` is kept in
/// hundredths of a percent, so 1000 stands for 10%.
pub struct DistillConfig {
    pub target_count: Option<u32>,
    pub target_percent: Option<u32>,
    pub strategy: String,
    pub random_seed: Option<u64>,
    pub preserve_category_balance: bool,
}

impl Default for DistillConfig {
    /// Default distillation: diversity strategy at 10%.
    fn default() -> (r: Self)
        ensures
            r.target_count is None,
            r.target_percent == Some(1000u32),
            r.strategy@ == "diversity"@,
            r.random_seed is None,
            r.preserve_category_balance == false,
    {
        DistillConfig {
            target_count: None,
            target_percent: Some(1000),
            strategy: String::from_str("diversity"),
            random_seed: None,
            preserve_category_balance: false,
        }
    }
}

/// What ingestion reports about a new dataset.
pub struct DatasetSummary {
    pub id: String,
    pub source_path: String,
    pub format: String,
    pub record_count: usize,
    pub fields: Vec<String>,
    pub size_bytes: u64,
}

/// What a filter run reports.
pub struct FilterSummary {
    pub total_count: usize,
    pub filtered_count: usize,
    pub duplicates_removed: usize,
}

/// What a distillation preview reports.
pub struct DistillSummary {
    pub total_count: usize,
    pub selected_count: usize,
    pub removed_count: usize,
}

/// One page of a view.
pub struct PreviewPage {
    pub items: Vec<PreviewItem>,
    pub total_count: usize,
    pub page: usize,
    pub page_size: usize,
}

/// One record of a page.
pub struct PreviewItem {
    pub id: usize,
    pub fields: Vec<PreviewField>,
}

/// One displayed field of a record.
pub struct PreviewField {
    pub name: String,
    pub value: String,
    pub kind: String,
}

impl View for PreviewField {
    type V = (Seq<char>, Seq<char>, Seq<char>);

    open spec fn view(&self) -> (Seq<char>, Seq<char>, Seq<char>) {
        (self.name@, self.value@, self.kind@)
    }
}

impl DeepView for PreviewField {
    type V = (Seq<char>, Seq<char>, Seq<char>);

    open spec fn deep_view(&self) -> (Seq<char>, Seq<char>, Seq<char>) {
        self.view()
    }
}

/// One manual selection change: `keep` moves the id into the selected set,
/// otherwise into the removed set.
pub struct ManualChange {
    pub id: usize,
    pub keep: bool,
}

impl View for ManualChange {
    type V = ManualChange;

    open spec fn view(&self) -> ManualChange {
        *self
    }
}

impl DeepView for ManualChange {
    type V = ManualChange;

    open spec fn deep_view(&self) -> ManualChange {
        *self
    }
}

/// How often one category value occurs.
pub struct CategoryCount {
    pub name: String,
    pub count: usize,
}

impl View for CategoryCount {
    type V = CategoryCount;

    open spec fn view(&self) -> CategoryCount {
        *self
    }
}

impl DeepView for CategoryCount {
    type V = CategoryCount;

    open spec fn deep_view(&self) -> CategoryCount {
        *self
    }
}

/// The persisted user settings.
pub struct Settings {
    pub last_path: Option<String>,
    pub language: Option<String>,
    pub field_map: FieldMap,
    pub filters: FilterConfig,
    pub distill: DistillConfig,
}

/// Why an engine operation failed.
#[derive(Debug)]
pub enum DataError {
    /// Malformed input text.
    Parse,
    /// A record id at or past the record count.
    OutOfRange,
    /// A source format that is neither CSV nor the JSON family.
    Unsupported,
    /// The store grew past the offset range.
    StoreFull,
}

impl DataError {
    /// The message shown for this failure.
    pub fn message(&self) -> (r: String)
        ensures
            self is Parse ==> r@ == "parse error"@,
            self is OutOfRange ==> r@ == "Record id out of range"@,
            self is Unsupported ==> r@ == "Unsupported format"@,
            self is StoreFull ==> r@ == "store too large"@,
    {
        match self {
            DataError::Parse => String::from_str("parse error"),
            DataError::OutOfRange => String::from_str("Record id out of range"),
            DataError::Unsupported => String::from_str("Unsupported format"),
            DataError::StoreFull => String::from_str("store too large"),
        }
    }
}

/// One progress event.
pub struct ProgressPayload {
    pub stage: String,
    pub current: usize,
    pub total: usize,
    pub message: Option<String>,
}

} // verus!
