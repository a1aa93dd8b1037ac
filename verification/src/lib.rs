//! Per-city minimum, mean and maximum of `name;value` measurement records,
//! computed on exact fixed-point numbers.

pub mod aggregate;
pub mod chunk;
pub mod cities_map;
pub mod city_data;
pub mod fnv;
pub mod planner;
pub mod record;
pub mod report;
pub mod temp_value;
