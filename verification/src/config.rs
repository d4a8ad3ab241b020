//! What a run is asked to do: the image, the number of colours, and how to
//! present them.

use vstd::prelude::*;
use vstd::string::StringExecFns;

verus! {

/// The number of colours that is extracted where none is asked for.
pub const DEFAULT_COLOURS: usize = 6;

/// The file that the swatch goes to where none is named.
pub const DEFAULT_OUTPUT: &'static str = "swatch.svg";

/// The iteration cap of the clustering.
pub const DEFAULT_MAX_ITERATIONS: usize = 100;

/// How the colours are presented.
#[derive(Clone, Copy, Debug, PartialEq, Eq, Structural)]
pub enum OutputFormat {
    /// One line of text for each colour.
    Text,
    /// One structured document.
    Json,
}

impl OutputFormat {
    /// The name by which the format is chosen and shown.
    pub open spec fn name_text(self) -> Seq<char> {
        match self {
            OutputFormat::Text => "text"@,
            OutputFormat::Json => "json"@,
        }
    }

    /// The format that a name stands for; `None` for any other text.
    pub open spec fn of_name(name: Seq<char>) -> Option<OutputFormat> {
        if name == "text"@ {
            Some(OutputFormat::Text)
        } else if name == "json"@ {
            Some(OutputFormat::Json)
        } else {
            None
        }
    }

    /// The name of the format: `text` or `json`.
    pub fn name(&self) -> (name: String)
        ensures
            name@ == self.name_text(),
    {
        match self {
            OutputFormat::Text => String::from_str("text"),
            OutputFormat::Json => String::from_str("json"),
        }
    }

    /// Reads the name of a format. Names are matched exactly.
    pub fn from_name(name: &str) -> (format: Option<OutputFormat>)
        ensures
            format == Self::of_name(name@),
    {
        let given: String = String::from_str(name);
        if given == String::from_str("text") {
            Some(OutputFormat::Text)
        } else if given == String::from_str("json") {
            Some(OutputFormat::Json)
        } else {
            None
        }
    }
}

/// Reading the name of a format gives the format back.
pub proof fn lemma_format_name_round_trip(format: OutputFormat)
    ensures
        OutputFormat::of_name(format.name_text()) == Some(format),
{
    reveal_strlit("text");
    reveal_strlit("json");
    assert("text"@[0] != "json"@[0]);
}

/// The settings of one run.
#[derive(Debug, PartialEq, Eq)]
pub struct Args {
    /// The image file to analyse.
    pub filename: String,
    /// The number of colours to extract.
    pub colours: usize,
    /// How the colours are presented.
    pub format: OutputFormat,
    /// Whether a swatch is written.
    pub swatch: bool,
    /// The file that the swatch goes to.
    pub output: String,
}

impl Args {
    /// The settings for an image, each option taking its default where it is
    /// not given: six colours, presented as text, no swatch, and `swatch.svg`
    /// as the file of the swatch.
    pub fn from_options(
        filename: String,
        colours: Option<usize>,
        format: Option<OutputFormat>,
        swatch: bool,
        output: Option<String>,
    ) -> (args: Args)
        ensures
            args.filename == filename,
            args.colours == match colours {
                Some(n) => n,
                None => DEFAULT_COLOURS,
            },
            args.format == match format {
                Some(f) => f,
                None => OutputFormat::Text,
            },
            args.swatch == swatch,
            args.output@ == match output {
                Some(o) => o@,
                None => DEFAULT_OUTPUT@,
            },
    {
        let colours: usize = match colours {
            Some(n) => n,
            None => DEFAULT_COLOURS,
        };
        let format: OutputFormat = match format {
            Some(f) => f,
            None => OutputFormat::Text,
        };
        let output: String = match output {
            Some(o) => o,
            None => String::from_str(DEFAULT_OUTPUT),
        };
        Args { filename, colours, format, swatch, output }
    }
}

} // verus!
