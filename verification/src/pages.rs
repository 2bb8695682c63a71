//! Inputs of the presentation pages: each page renders one shared,
//! read-only master table.

use vstd::prelude::*;
use std::rc::Rc;
use crate::model::MasterTable;

verus! {

pub struct SetsPageProps {
    pub master_table: Rc<MasterTable>,
}

pub struct SkillsPageProps {
    pub master_table: Rc<MasterTable>,
}

} // verus!
