//! The editor session: a document together with the text it was opened from.

use vstd::prelude::*;
use vstd::string::*;
use crate::error::TcxError;
use crate::flatten::{count_trackpoints, flatten, flattened, point_count, views, JsTrackpoint};
use crate::model::{DatabaseView, TrainingCenterDatabase};
use crate::stats::{compute, stats_of, JsActivityStats};
use crate::trim::{cut_tracks, find_misfit, misfit, recalculated, trimmed};

verus! {

/// The declaration line that every exported file starts with.
pub const XML_DECLARATION: &'static str =
    "<?xml version=\"1.0\" encoding=\"UTF-8\" standalone=\"yes\"?>";

/// An exported file: the declaration line, a line break, the root element.
pub open spec fn framed(root: Seq<char>) -> Seq<char> {
    XML_DECLARATION@ + seq!['\n'] + root
}

/// A document under edit and the text it was opened from.
///
/// The editor never reads or writes XML itself. Whoever opens a session hands
/// it the text together with the outcome of decoding that text, and hands
/// `reset` the outcome of decoding [`TcxEditor::original_xml`] again.
pub struct TcxEditor {
    database: TrainingCenterDatabase,
    original_xml: String,
}

impl TcxEditor {
    /// The document as it stands.
    pub closed spec fn document(&self) -> DatabaseView {
        self.database@
    }

    /// The text that the session was opened from.
    pub closed spec fn original(&self) -> Seq<char> {
        self.original_xml@
    }

    /// Opens a session on `xml_content`, given the outcome of decoding it.
    ///
    /// A decoded document opens the session; a decoding failure is passed on
    /// as a parse error and opens none.
    pub fn new(xml_content: &str, decoded: Result<TrainingCenterDatabase, String>) -> (r: Result<
        TcxEditor,
        TcxError,
    >)
        ensures
            match decoded {
                Ok(database) => r.is_ok() && r.unwrap().document() == database@
                    && r.unwrap().original() == xml_content@,
                Err(detail) => r == Err::<TcxEditor, TcxError>(TcxError::Parse { detail }),
            },
    {
        match decoded {
            Ok(database) => Ok(
                TcxEditor { database, original_xml: String::from_str(xml_content) },
            ),
            Err(detail) => Err(TcxError::Parse { detail }),
        }
    }

    /// The document, for whoever encodes it.
    pub fn database(&self) -> (r: &TrainingCenterDatabase)
        ensures
            r@ == self.document(),
    {
        &self.database
    }

    /// The text that the session was opened from, for whoever decodes it again.
    pub fn original_xml(&self) -> (r: &str)
        ensures
            r@ == self.original(),
    {
        self.original_xml.as_str()
    }

    /// Every trackpoint of the document, flattened, in document order.
    pub fn get_trackpoints(&self) -> (r: Vec<JsTrackpoint>)
        ensures
            views(r@) == flattened(self.document()),
    {
        self.collect_trackpoints()
    }

    /// The statistics of the document.
    pub fn get_stats(&self) -> (r: JsActivityStats)
        ensures
            r@ == stats_of(self.document()),
    {
        self.calculate_stats()
    }

    /// Trims every track to the inclusive range of indices from `start` to
    /// `end` and recalculates the lap summaries.
    ///
    /// Where the range does not fit every track, the session stays as it is
    /// and the error names the first track, in document order, that it does
    /// not fit.
    pub fn trim_by_indices(&mut self, start: usize, end: usize) -> (r: Result<(), TcxError>)
        ensures
            final(self).original() == old(self).original(),
            match r {
                Ok(_) => misfit(old(self).document(), start, end).is_none()
                    && final(self).document() == trimmed(old(self).document(), start, end),
                Err(error) => *final(self) == *old(self) && exists|total: usize|
                    misfit(old(self).document(), start, end) == Some(total as nat) && error == (
                    TcxError::Index { start, end, total }),
            },
    {
        match find_misfit(&self.database, start, end) {
            Some(total) => Err(TcxError::Index { start, end, total }),
            None => {
                cut_tracks(&mut self.database, start, end);
                self.recalculate_lap_stats();
                Ok(())
            },
        }
    }

    /// Frames the encoded root element of the document as a file.
    pub fn to_xml(&self, root: &str) -> (r: String)
        ensures
            r@ == framed(root@),
    {
        let mut file = String::from_str(XML_DECLARATION);
        proof {
            reveal_strlit("\n");
            assert("\n"@ =~= seq!['\n']);
        }
        file.append("\n");
        file.append(root);
        file
    }

    /// The number of trackpoints in the document; `usize::MAX` where no
    /// `usize` holds it.
    pub fn get_trackpoint_count(&self) -> (n: usize)
        ensures
            n == if point_count(self.document()) > usize::MAX {
                usize::MAX as nat
            } else {
                point_count(self.document())
            },
    {
        count_trackpoints(&self.database)
    }

    /// Puts the document back to what the original text decodes to, given the
    /// outcome of decoding that text again.
    ///
    /// A decoding failure is passed on as a parse error and leaves the session
    /// as it is.
    pub fn reset(&mut self, decoded: Result<TrainingCenterDatabase, String>) -> (r: Result<
        (),
        TcxError,
    >)
        ensures
            final(self).original() == old(self).original(),
            match decoded {
                Ok(database) => r.is_ok() && final(self).document() == database@,
                Err(detail) => r == Err::<(), TcxError>(TcxError::Parse { detail }) && *final(self)
                    == *old(self),
            },
    {
        match decoded {
            Ok(database) => {
                self.database = database;
                Ok(())
            },
            Err(detail) => Err(TcxError::Parse { detail }),
        }
    }

    /// Flattens the document.
    fn collect_trackpoints(&self) -> (r: Vec<JsTrackpoint>)
        ensures
            views(r@) == flattened(self.document()),
    {
        flatten(&self.database)
    }

    /// Computes the statistics of the document.
    fn calculate_stats(&self) -> (r: JsActivityStats)
        ensures
            r@ == stats_of(self.document()),
    {
        compute(&self.database)
    }

    /// Brings the lap summaries in line with the trackpoints that are left.
    fn recalculate_lap_stats(&mut self)
        ensures
            final(self).document() == recalculated(old(self).document()),
            final(self).original() == old(self).original(),
    {
        crate::trim::recalculate_lap_stats(&mut self.database)
    }
}

} // verus!
