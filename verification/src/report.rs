//! The report of a run: the issues that were met and did not stop it.

use vstd::prelude::*;

verus! {

/// The kind of an issue.
#[derive(Debug, Clone, Copy, PartialEq, Eq, Structural)]
pub enum ReportCategory {
    /// An identifier names nothing in the collection where it was looked up.
    ObjectNotFound,
    /// A regroup rule had no effect on any dependent entity.
    RuleNotApplied,
}

/// An issue as specifications see it.
pub struct Issue {
    pub category: ReportCategory,
    pub message: Seq<char>,
}

/// An issue of a report.
#[derive(Debug)]
pub struct ReportEntry {
    pub category: ReportCategory,
    pub message: String,
}

impl View for ReportEntry {
    type V = Issue;

    open spec fn view(&self) -> Issue {
        Issue { category: self.category, message: self.message@ }
    }
}

/// The issues of a run, in the order in which they were met.
#[derive(Debug)]
pub struct Report {
    entries: Vec<ReportEntry>,
}

impl View for Report {
    type V = Seq<Issue>;

    closed spec fn view(&self) -> Seq<Issue> {
        self.entries@.map_values(|entry: ReportEntry| entry@)
    }
}

impl Report {
    /// A report without issues.
    pub fn new() -> (report: Self)
        ensures
            report@ == Seq::<Issue>::empty(),
    {
        let report = Report { entries: Vec::new() };
        assert(report@ == Seq::<Issue>::empty());
        report
    }

    /// Adds an issue after those that the report holds.
    pub fn add_error(&mut self, message: String, category: ReportCategory)
        ensures
            final(self)@ == old(self)@.push(Issue { category, message: message@ }),
    {
        let ghost before = self.entries@;
        let entry = ReportEntry { category, message };
        self.entries.push(entry);
        assert(self.entries@.map_values(|entry: ReportEntry| entry@) == before.map_values(
            |entry: ReportEntry| entry@,
        ).push(entry@));
    }

    /// The number of issues.
    pub fn len(&self) -> (n: usize)
        ensures
            n == self@.len(),
    {
        self.entries.len()
    }

    /// Whether the report holds no issue.
    pub fn is_empty(&self) -> (empty: bool)
        ensures
            empty == (self@.len() == 0),
    {
        self.entries.len() == 0
    }

    /// The issue at `position`.
    pub fn get(&self, position: usize) -> (entry: &ReportEntry)
        requires
            position < self@.len(),
        ensures
            entry@ == self@[position as int],
    {
        &self.entries[position]
    }
}

impl Default for Report {
    fn default() -> (report: Self)
        ensures
            report@ == Seq::<Issue>::empty(),
    {
        Report::new()
    }
}

} // verus!
