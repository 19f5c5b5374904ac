//! `pinfo.cols`: the two columns that a dissector can set.

use vstd::prelude::*;
use vstd::string::*;
use crate::lua::tree::{FieldsModel, FrameFields};

verus! {

/// The handle to a frame's columns.
#[derive(Clone, Copy, Debug)]
pub struct Cols;

/// What a column shows: nothing where it was not set.
pub open spec fn shown(column: Option<Seq<char>>) -> Seq<char> {
    match column {
        Some(text) => text,
        None => Seq::empty(),
    }
}

fn text_or_empty(column: &Option<String>) -> (text: String)
    ensures
        text@ == match column {
            Some(text) => text@,
            None => Seq::empty(),
        },
{
    match column {
        Some(text) => text.clone(),
        None => String::new(),
    }
}

impl Cols {
    /// `pinfo.cols.protocol`.
    pub fn protocol(&self, fields: &FrameFields) -> (text: String)
        ensures
            text@ == shown(fields@.protocol),
    {
        text_or_empty(&fields.protocol)
    }

    /// `pinfo.cols.protocol = ..`.
    pub fn set_protocol(&self, fields: &mut FrameFields, text: String)
        ensures
            final(fields)@ == (FieldsModel { protocol: Some(text@), ..old(fields)@ }),
    {
        fields.protocol = Some(text);
    }

    /// `pinfo.cols.info`.
    pub fn info(&self, fields: &FrameFields) -> (text: String)
        ensures
            text@ == shown(fields@.info),
    {
        text_or_empty(&fields.info)
    }

    /// `pinfo.cols.info = ..`.
    pub fn set_info(&self, fields: &mut FrameFields, text: String)
        ensures
            final(fields)@ == (FieldsModel { info: Some(text@), ..old(fields)@ }),
    {
        fields.info = Some(text);
    }
}

} // verus!
