pub mod common;
pub mod const_prop;
pub mod avail_exp;
pub mod mfp;
pub mod soundness;
