//! zeroboot: a node is functional the moment it boots.
//!
//! Not an installer. There is no step where a machine is "installed" and then
//! becomes useful: it boots, looks at its drives, and if any of them are
//! nobody's it takes one and puts its writable state there, before anything has
//! written a byte. A node with nowhere to put that state still boots, on
//! whatever the appliance is serving. Assimilation is an improvement, not a
//! precondition.
//!
//! [`survey`] is the judgement on a machine: what is on each drive, whose it is
//! and what follows. [`judge`] comes to the verdict on one drive, one question
//! at a time; [`sniff`] and [`scan`] read what its bytes say, [`esp`] what its
//! EFI System Partition says, and [`probe`] what the machine says of it.
//! [`claim`] decides when a node's name is written onto a drive, [`boot`] what
//! the initramfs is told, and [`bootimage`] what goes into a boot disk.
//! [`listing`] writes a survey out, and [`clock`] the time.
//!
//! Nothing here reads or writes a device. What was read comes in as values, and
//! what is to be done goes out as values; the caller decides.

pub mod boot;
pub mod bootimage;
pub mod bytes;
pub mod claim;
pub mod clock;
pub mod esp;
pub mod judge;
pub mod listing;
pub mod names;
pub mod probe;
pub mod scan;
pub mod sniff;
pub mod survey;
pub mod text;
