//! Parsing, conversion and display of OBIS codes: six-byte identifiers used
//! in energy metering, written either as twelve hex digits
//! (`AA.BB.CC.DD.EE.FF` once rendered) or in the dotted decimal form
//! `A-B:C.D.E.F`.

pub mod args;
pub mod commands;
pub mod hex_obis;
pub mod obis;
