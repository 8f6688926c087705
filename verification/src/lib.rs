//! Golden DKG: canonical wire codecs, transcripts, Shamir sharing and the
//! integer scheduling helpers of the Golden distributed key generation
//! workspace, with their behaviour stated as contracts.
#![allow(unused_imports)]

use vstd::prelude::*;

pub mod bls_cycle;
pub mod bls_scalar;
pub mod bytes;
pub mod cycle;
pub mod deal;
pub mod dealer_message;
pub mod dealer_parse;
pub mod dealer_proof;
pub mod dealer_roundtrip;
pub mod dkg;
pub mod dkg_output;
pub mod error;
pub mod feldman;
pub mod group;
pub mod interpolation;
pub mod ipp_prove;
pub mod ipp_verify;
pub mod linear_prove;
pub mod jubjub_cycle;
pub mod jubjub_group;
pub mod main_golden;
pub mod message_statement;
mod modarith;
pub mod msm;
mod order;
pub mod participant;
pub mod pippenger;
pub mod proof_bytes;
pub mod proof_cycle;
pub mod proof_errors;
pub mod proof_transcript;
pub mod r1cs_verify;
pub mod ristretto_cycle;
pub mod root_binding;
pub mod shamir;
pub mod tile_sum;
pub mod tiny_group;
pub mod transcript;
pub mod util;
pub mod wire;
pub mod wire_values;

verus! {

} // verus!
