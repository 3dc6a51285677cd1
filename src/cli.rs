//! Command-line options of the program built on this library.
use vstd::prelude::*;

verus! {

/// The program's modes.
#[derive(Debug)]
pub enum Opt {
    /// Scan live channels and follow their chats.
    LiveChatTest,
    /// Analyse recorded chat logs.
    AnalysisChat(AnalysisChatOpt),
    /// Experimental mode.
    Experimental,
}

/// Options of the analysis mode.
#[derive(Debug)]
pub struct AnalysisChatOpt {
    /// Channel-and-replay data files (any number).
    pub files: Vec<String>,
}

impl Default for AnalysisChatOpt {
    fn default() -> (r: Self)
        ensures
            r.files@.len() == 0,
    {
        AnalysisChatOpt { files: Vec::new() }
    }
}

/// Options of event extraction.
#[derive(Debug)]
pub enum ExtractEventOpt {
    /// Extract the events of one video.
    Video { video_id: u64 },
    /// Extract the events of a channel's videos of the last `recent_days` days.
    Channel { channel: String, recent_days: u64 },
}

} // verus!
