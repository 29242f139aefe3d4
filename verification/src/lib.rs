//! Matching of expected text in the byte stream of a SIM800L modem.
//!
//! The modem answers over a serial line, one symbol at a time. A driver
//! usually knows which text it waits for (an echo of the command it sent, a
//! prompt, a result code) and must find it in the stream without buffering
//! it. [`matching::Match`] does that in constant memory.

pub mod matching;
