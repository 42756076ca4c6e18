pub mod bignum;
pub mod cli;
pub mod loan_revolver;
