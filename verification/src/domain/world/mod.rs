pub mod province;
