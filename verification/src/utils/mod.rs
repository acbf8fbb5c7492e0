pub mod elog;
