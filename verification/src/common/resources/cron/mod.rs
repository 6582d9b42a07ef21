pub mod job;
