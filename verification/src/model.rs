//! The values that pass between the stages of the pipeline.

use vstd::prelude::*;

verus! {

/// A fraction `numerator / denominator` of a set.
#[derive(Clone, Copy, Debug, PartialEq, Eq, Structural)]
pub struct Fraction {
    pub numerator: u32,
    pub denominator: u32,
}

/// A file together with the class it belongs to.
#[derive(Debug, PartialEq, Eq)]
pub struct LabeledPath {
    pub path: String,
    pub label: String,
}

/// What a [`LabeledPath`] holds.
pub struct LabeledPathView {
    pub path: Seq<char>,
    pub label: Seq<char>,
}

impl DeepView for LabeledPath {
    type V = LabeledPathView;

    open spec fn deep_view(&self) -> LabeledPathView {
        LabeledPathView { path: self.path@, label: self.label@ }
    }
}

impl Clone for LabeledPath {
    fn clone(&self) -> (copy: Self)
        ensures
            copy == *self,
    {
        LabeledPath { path: self.path.clone(), label: self.label.clone() }
    }
}

impl LabeledPath {
    /// Pairs a path with its label.
    pub fn new(path: String, label: String) -> (item: Self)
        ensures
            item.path == path,
            item.label == label,
    {
        LabeledPath { path, label }
    }
}

/// One class directory: its name and the paths of the files directly inside.
#[derive(Debug, PartialEq, Eq)]
pub struct ClassDir {
    pub name: String,
    pub files: Vec<String>,
}

/// What a [`ClassDir`] holds.
pub struct ClassDirView {
    pub name: Seq<char>,
    pub files: Seq<Seq<char>>,
}

impl DeepView for ClassDir {
    type V = ClassDirView;

    open spec fn deep_view(&self) -> ClassDirView {
        ClassDirView { name: self.name@, files: self.files.deep_view() }
    }
}

/// Everything that can go wrong between a directory of images and a batch.
#[derive(Debug, PartialEq, Eq)]
pub enum PipelineError {
    /// The root is missing or is not a directory.
    DirectoryNotFound { path: String },
    /// A class directory holds no image file. The class is skipped.
    EmptyClass { class: String },
    /// A split fraction lies outside `(0, 1)`, or the two together reach 1.
    InvalidFraction { train: Fraction, test: Fraction },
    /// No positive batch size within the ceiling divides the length.
    NoEligibleBatchSize { length: usize, max_batch_size: usize },
    /// A label that the class index does not hold.
    UnknownClass { label: String },
    /// A file that could not be turned into pixels of the requested size.
    ItemDecodeError { path: String },
}

/// What a [`PipelineError`] holds.
pub enum PipelineErrorView {
    DirectoryNotFound { path: Seq<char> },
    EmptyClass { class: Seq<char> },
    InvalidFraction { train: Fraction, test: Fraction },
    NoEligibleBatchSize { length: usize, max_batch_size: usize },
    UnknownClass { label: Seq<char> },
    ItemDecodeError { path: Seq<char> },
}

impl DeepView for PipelineError {
    type V = PipelineErrorView;

    open spec fn deep_view(&self) -> PipelineErrorView {
        match *self {
            PipelineError::DirectoryNotFound { path } => PipelineErrorView::DirectoryNotFound {
                path: path@,
            },
            PipelineError::EmptyClass { class } => PipelineErrorView::EmptyClass { class: class@ },
            PipelineError::InvalidFraction { train, test } => PipelineErrorView::InvalidFraction {
                train,
                test,
            },
            PipelineError::NoEligibleBatchSize {
                length,
                max_batch_size,
            } => PipelineErrorView::NoEligibleBatchSize { length, max_batch_size },
            PipelineError::UnknownClass { label } => PipelineErrorView::UnknownClass {
                label: label@,
            },
            PipelineError::ItemDecodeError { path } => PipelineErrorView::ItemDecodeError {
                path: path@,
            },
        }
    }
}

} // verus!
