//! The options of a run.

use vstd::prelude::*;

verus! {

/// What to read, where to write, and what to put in.
#[derive(Debug)]
pub struct Args {
    /// Input root directory, a `.zip` or `.7z` file, or a `questionData.js` file
    pub file: String,
    /// Output Markdown file path
    pub output: String,
    /// Include analysis field when available
    pub include_analysis: bool,
    /// Include source file path for each question
    pub include_source: bool,
    /// Also write a PDF next to each Markdown file
    pub pdf: bool,
    /// Directory with the fonts for the PDF
    pub font_dir: Option<String>,
}

impl Default for Args {
    /// The current directory, `qa_output.md`, neither analysis nor source, no PDF.
    fn default() -> (r: Self)
        ensures
            r.file@ == "."@,
            r.output@ == "qa_output.md"@,
            !r.include_analysis,
            !r.include_source,
            !r.pdf,
            r.font_dir is None,
    {
        Args {
            file: ".".to_string(),
            output: "qa_output.md".to_string(),
            include_analysis: false,
            include_source: false,
            pdf: false,
            font_dir: None,
        }
    }
}

} // verus!
