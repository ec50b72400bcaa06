//! Verified core of a confidential credit-records analysis: exact comparison
//! of binary64 values, order statistics, the t-table p-value ranges, and the
//! selection and grouping of credit records.
#![allow(non_snake_case)]

pub mod binary64;
pub mod sorting;
pub mod summary;
pub mod pvalue;
pub mod credit;
pub mod design;
