//! HexSnake: snake on a hexagonal grid — game rules, replay verification,
//! autopilot strategies and the leaderboard bookkeeping around them.
pub mod api;
pub mod benchmark;
pub mod board;
pub mod client;
pub mod coords;
pub mod daily;
pub mod frontend;
pub mod game;
pub mod highscores;
pub mod mode;
pub mod ratelimit;
pub mod nn;
pub mod neat;
pub mod innovation;
pub mod mutation;
pub mod online;
pub mod replay;
pub mod seed;
pub mod session;
pub mod server;
pub mod settings;
pub mod stats;
pub mod strategy;
pub mod text;
pub mod theme;
pub mod training;
