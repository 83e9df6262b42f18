//! Temperature-driven fan control for servers whose fans are set over IPMI.
//!
//! The decisions of a fan controller, each with a contract that is proved: what
//! a configuration has to keep to ([`config`]), what temperatures the hwmon
//! directory and `ipmitool` give ([`sensors`]), which duty they call for
//! ([`control`]), when it is sent ([`daemon`]), with which commands
//! ([`ipmi_fan`]), and how control goes back to the BMC ([`safety`]).
//!
//! Temperatures are single-precision numbers. [`binary32`] has their arithmetic
//! on bit patterns, with every result proved to be correctly rounded; it rests
//! on [`bignat`]. [`numeral`], [`text`] and [`listing`] read and write numbers
//! and texts, and order file names.
//!
//! Nothing here does input or output. What was read is passed in as plain
//! values, and what is to be done comes back as such.

pub mod bignat;
pub mod binary32;
pub mod command;
pub mod config;
pub mod control;
pub mod daemon;
pub mod ipmi_fan;
pub mod listing;
pub mod numeral;
pub mod safety;
pub mod sensors;
pub mod text;
