use std::collections::HashMap;

use oxscape::depfill::cell::{Cell, GraphCell};
use oxscape::depfill::fill::{fill_zhou2016, fill_zhou_watersheds, initial_fill, raise_catchments, FillData};
use oxscape::depfill::graph_fill::{fill_graph, GraphFillState};
use oxscape::depfill::grid::{FillGrid, HashMapFillGrid, VecFillGrid};
use oxscape::depfill::supergraph::{fill_supergraph, SuperGraph};
use oxscape::depfill::zhou::{RidgePoint, ZhouFillState, NOT_FILLED, ROI_FLAG};
use oxscape::elev::{f32_bits_from_key, f64_bits_from_key, key_from_f32_bits, key_from_f64_bits};
use oxscape::grid::{Dir, GridMeta};
use oxscape::tile::{TileCoord, TileInfo};
use oxscape::TLabel;

fn k64(v: f64) -> u64 {
    key_from_f64_bits(v.to_bits())
}

fn v64(k: u64) -> f64 {
    f64::from_bits(f64_bits_from_key(k))
}

fn k32(v: f32) -> u64 {
    key_from_f32_bits(v.to_bits())
}

fn v32(k: u64) -> f32 {
    f32::from_bits(f32_bits_from_key(k))
}

fn keys64(vals: &[f64]) -> Vec<u64> {
    vals.iter().map(|v| k64(*v)).collect()
}

fn vals64(keys: &[u64]) -> Vec<f64> {
    keys.iter().map(|k| v64(*k)).collect()
}

fn keys32(vals: &[f32]) -> Vec<u64> {
    vals.iter().map(|v| k32(*v)).collect()
}

fn vals32(keys: &[u64]) -> Vec<f32> {
    keys.iter().map(|k| v32(*k)).collect()
}

fn graph64(g: &[HashMap<TLabel, u64>]) -> Vec<HashMap<TLabel, f64>> {
    g.iter()
        .map(|m| m.iter().map(|(l, e)| (*l, v64(*e))).collect())
        .collect()
}

fn graph32(g: &[HashMap<TLabel, u64>]) -> Vec<HashMap<TLabel, f32>> {
    g.iter()
        .map(|m| m.iter().map(|(l, e)| (*l, v32(*e))).collect())
        .collect()
}

fn key_graph64(g: Vec<HashMap<TLabel, f64>>) -> Vec<HashMap<TLabel, u64>> {
    g.into_iter()
        .map(|m| m.into_iter().map(|(l, e)| (l, k64(e))).collect())
        .collect()
}

fn key_graph32(g: Vec<HashMap<TLabel, f32>>) -> Vec<HashMap<TLabel, u64>> {
    g.into_iter()
        .map(|m| m.into_iter().map(|(l, e)| (l, k32(e))).collect())
        .collect()
}

fn offsets_map(sg: &SuperGraph) -> HashMap<TileCoord, (TLabel, usize)> {
    sg.offsets().iter().cloned().collect()
}

#[test]
fn fill_test_zhou() {
    let mut dem = keys64(&[
        15,15,14,15,12,6,12,
        14,13,10,12,15,17,15,
        15,15, 9,11, 8,15,15,
        16,17, 8,16,15, 7, 5,
        19,18,19,18,17,15,14,
    ].map(|v| v as f64));
    let mut labels = vec![NOT_FILLED;dem.len()];
    let expected = [
        15.0,15.0,14.0,15.0,12.0, 6.0,12.0,
        14.0,13.0,11.0,12.0,15.0,17.0,15.0,
        15.0,15.0,11.0,11.0, 8.0,15.0,15.0,
        16.0,17.0,11.0,16.0,15.0, 7.0, 5.0,
        19.0,18.0,19.0,18.0,17.0,15.0,14.0,
    ];
    fill_zhou2016(&GridMeta::new(7, 5), &mut dem, &mut labels);
    assert_eq!(vals64(&dem), expected);
}

#[test]
fn fill_test_flag() {
    assert_eq!(ROI_FLAG, TLabel::MAX / 2 + 1);
    let ten = 10;
    let ten_flag = ten | ROI_FLAG;
    assert_eq!(ten, ten_flag & !ROI_FLAG);
    assert_eq!(NOT_FILLED, ROI_FLAG - 1);
}

#[test]
fn test_raise_catchments() {
    let mut dem = keys32(&[
        0,1,
        2,3
    ].map(|v| v as f32));
    let labels = [
        0,0,
        1,1,
    ];
    let spill_elevs = keys32(&[1,2].map(|v| v as f32));
    raise_catchments(&mut dem, &labels, &spill_elevs);
    assert_eq!(vals32(&dem), [
        1,1,
        2,3
    ].map(|v| v as f32));
}

#[test]
fn fill_test_tiled_third() {
    let meta = GridMeta::new(7, 7);
    let mut dem = keys32(&[
        3,4,4,5,5,6,7,
        6,6,5,3,4,6,8,
        6,6,5,3,4,5,6,
        6,5,4,4,4,4,3,
        6,5,4,3,3,4,4,
        7,6,4,2,3,4,4,
        8,7,4,2,3,4,4,
    ].map(|v| v as f32));
    let mut labels = vec![NOT_FILLED;meta.size()];
    fill_zhou2016(&meta, &mut dem, &mut labels);
    assert_eq!(vals32(&dem), [
        3,4,4,5,5,6,7,
        6,6,5,4,4,6,8,
        6,6,5,4,4,5,6,
        6,5,4,4,4,4,3,
        6,5,4,3,3,4,4,
        7,6,4,2,3,4,4,
        8,7,4,2,3,4,4,
    ].map(|v| v as f32));
    assert_eq!(&labels, &[
        1,1,1,1,0,0,0,
        1,0,1,0,0,0,0,
        0,0,0,0,0,0,0,
        0,0,0,0,0,0,2,
        0,0,0,0,0,0,2,
        0,0,0,0,0,0,0,
        0,0,0,0,0,0,0,
    ])
}

#[test]
fn fill_test_tiled_fifth() {
    let meta = GridMeta::new(7, 7);
    let mut dem = keys32(&[
        8,7,5,5,4,4,6,
        5,4,3,4,3,4,7,
        4,3,3,4,2,4,7,
        5,4,4,5,3,4,7,
        7,6,5,5,4,5,7,
        8,7,5,5,4,5,7,
        7,7,6,6,5,5,6,
    ].map(|v| v as f32));
    let mut labels = vec![NOT_FILLED;meta.size()];
    fill_zhou2016(&meta, &mut dem, &mut labels);
    assert_eq!(vals32(&dem), [
        8,7,5,5,4,4,6,
        5,4,4,4,4,4,7,
        4,4,4,4,4,4,7,
        5,4,4,5,4,4,7,
        7,6,5,5,4,5,7,
        8,7,5,5,4,5,7,
        7,7,6,6,5,5,6,
    ].map(|v| v as f32));
}

#[test]
fn test_tiled_third_fifth() {
    let meta = GridMeta::new(7, 7);
    let dems = [
    [
        3,4,4,5,5,6,7,
        6,6,5,3,4,6,8,
        6,6,5,3,4,5,6,
        6,5,4,4,4,4,3,
        6,5,4,3,3,4,4,
        7,6,4,2,3,4,4,
        8,7,4,2,3,4,4,
    ],[
        8,7,5,5,4,4,6,
        5,4,3,4,3,4,7,
        4,3,3,4,2,4,7,
        5,4,4,5,3,4,7,
        7,6,5,5,4,5,7,
        8,7,5,5,4,5,7,
        7,7,6,6,5,5,6,
    ]
    ];
    let filled = [
    [
        3,4,4,5,5,6,7,
        6,6,5,4,4,6,8,
        6,6,5,4,4,5,6,
        6,5,4,4,4,4,3,
        6,5,4,3,3,4,4,
        7,6,4,2,3,4,4,
        8,7,4,2,3,4,4,
    ],[
        8,7,5,5,4,4,6,
        5,4,4,4,4,4,7,
        4,4,4,4,4,4,7,
        5,4,4,5,4,4,7,
        7,6,5,5,4,5,7,
        8,7,5,5,4,5,7,
        7,7,6,6,5,5,6,
    ]
    ];
    for (idx, tile) in dems.iter().enumerate() {
        let mut dem = keys64(&tile.map(|v| v as f64));
        let mut labels = [NOT_FILLED; 49];
        fill_zhou2016(&meta, &mut dem, &mut labels);
        assert_eq!(vals64(&dem), filled[idx].map(|v| v as f64));
    }
}

#[test]
fn barnes() {
    // the sample tiled dem from Barnes
    let tiled: [[i32; 49]; 9] = [
        [
            9,9,7,6,7,6,4,
            6,7,6,5,5,4,4,
            3,5,5,4,3,3,3,
            1,3,4,4,3,2,2,
            5,4,4,4,4,4,4,
            6,4,3,3,4,5,6,
            7,4,3,2,4,5,7,
        ],
        [
            3,2,3,4,2,1,2,
            4,4,4,5,3,3,5,
            4,4,4,5,4,5,6,
            3,4,4,5,6,6,6,
            5,6,6,7,4,4,6,
            7,8,8,6,3,4,6,
            9,9,8,5,3,4,6,
        ],
        [
            3,4,4,5,5,6,7,
            6,6,5,3,4,6,8,
            6,6,5,3,4,5,6,
            6,5,4,4,4,4,3,
            6,5,4,3,3,4,4,
            7,6,4,2,3,4,4,
            8,7,4,2,3,4,4,
        ],
        [
            8,6,5,5,7,6,6,
            6,7,8,7,8,7,6,
            5,7,8,8,7,7,6,
            6,6,6,6,6,5,5,
            4,4,4,4,6,7,8,
            4,4,4,5,6,7,7,
            7,5,5,7,7,5,4,
        ],
        [
            8,7,5,5,4,4,6,
            5,4,3,4,3,4,7,
            4,3,3,4,2,4,7,
            5,4,4,5,3,4,7,
            7,6,5,5,4,5,7,
            8,7,5,5,4,5,7,
            7,7,6,6,5,5,6,
        ],
        [
            8,8,6,3,3,4,6,
            7,7,6,3,4,5,6,
            7,7,6,3,5,6,7,
            6,6,6,6,5,6,8,
            6,7,8,7,7,6,6,
            6,7,7,7,6,5,4,
            6,5,5,5,4,4,3,
        ],
        [
            8,8,8,7,5,3,3,
            8,8,7,7,5,4,4,
            8,7,6,6,6,5,5,
            9,7,5,4,6,7,7,
            8,6,5,4,6,7,7,
            4,4,4,5,5,6,6,
            0,2,3,5,5,6,6,
        ],
        [
            7,8,8,8,7,5,4,
            7,8,8,8,7,5,4,
            7,7,7,7,6,6,6,
            6,5,4,4,5,6,6,
            6,5,5,6,4,5,6,
            6,6,5,6,4,4,6,
            4,6,6,3,3,4,5,
        ],
        [
            4,4,3,2,1,2,4,
            5,4,2,1,2,3,4,
            5,4,3,2,3,5,5,
            6,5,5,3,5,7,8,
            6,5,5,6,6,6,6,
            5,5,5,8,7,5,3,
            3,3,5,9,7,4,1,
        ],
    ];
    let filled = [
        tiled[0],
        tiled[1],
        [
            3,4,4,5,5,6,7,
            6,6,5,4,4,6,8,
            6,6,5,4,4,5,6,
            6,5,4,4,4,4,3,
            6,5,4,3,3,4,4,
            7,6,4,2,3,4,4,
            8,7,4,2,3,4,4,
        ],
        tiled[3],
        [
            8,7,5,5,4,4,6,
            5,4,4,4,4,4,7,
            4,4,4,4,4,4,7,
            5,4,4,5,4,4,7,
            7,6,5,5,4,5,7,
            8,7,5,5,4,5,7,
            7,7,6,6,5,5,6,
        ],
        tiled[5],
        tiled[6],
        tiled[7],
        tiled[8],
    ];
    let sheds: [[TLabel; 49]; 9] = [
        [
            0,0,0,2,2,2,2,
            0,0,0,2,2,2,2,
            0,0,0,2,2,2,2,
            0,0,0,2,2,2,2,
            0,0,0,1,1,2,2,
            0,1,1,1,1,1,1,
            0,1,1,1,1,1,1
        ],
        [
            1,1,1,0,0,0,0,
            1,1,1,0,0,0,0,
            3,3,1,0,0,0,0,
            3,3,1,0,0,0,0,
            3,3,0,0,2,2,2,
            3,0,0,2,2,2,2,
            0,0,2,2,2,2,2,
        ],
        [
            1,1,1,1,0,0,0,
            1,0,1,0,0,0,0,
            0,0,0,0,0,0,0,
            0,0,0,0,0,0,2,
            0,0,0,0,0,0,2,
            0,0,0,0,0,0,0,
            0,0,0,0,0,0,0,
        ],
        [
            2,2,2,2,2,5,5,
            4,2,1,2,1,3,5,
            4,1,1,1,1,1,3,
            1,1,1,1,1,3,3,
            1,1,1,1,1,0,0,
            1,1,1,1,0,0,0,
            1,1,1,0,0,0,0,
        ],
        [0; 49],
        [
            0,0,0,0,0,0,0,
            0,0,0,0,0,0,0,
            0,0,0,0,0,0,0,
            1,0,0,0,0,0,0,
            1,0,0,0,0,1,1,
            1,1,1,1,1,1,1,
            1,1,1,1,1,1,1,
        ],
        [
            0,1,1,1,1,1,1,
            0,1,1,1,1,1,1,
            0,0,0,1,1,1,1,
            0,0,0,0,1,0,1,
            0,0,0,0,0,0,0,
            0,0,0,0,0,0,0,
            0,0,0,0,0,0,0,
        ],
        [
            0,0,0,0,1,1,1,
            0,0,0,0,0,1,1,
            0,0,0,0,0,0,1,
            0,0,0,0,0,0,0,
            0,0,0,0,0,0,0,
            2,0,0,0,0,0,0,
            2,0,0,0,0,0,0,
        ],
        [
            0,0,0,0,0,0,0,
            0,0,0,0,0,0,0,
            0,0,0,0,0,0,0,
            0,0,0,0,0,0,0,
            0,0,0,0,0,0,1,
            2,2,2,0,0,1,1,
            2,2,2,0,1,1,1,
        ],
    ];
    let graphs = [
        vec![
            HashMap::from([(1,4.0),(2,4.0)]),
            HashMap::from([(2,4.0)]),
            HashMap::new(),
        ],vec![
            HashMap::from([(1,4.0),(2,5.0),(3,6.0)]),
            HashMap::from([(3,4.0)]),
            HashMap::from([]),
            HashMap::from([]),
        ],
        vec![
            HashMap::from([(1,4.0),(2,4.0)]),
            HashMap::from([]),
            HashMap::from([]),
        ],vec![
            HashMap::from([(1,6.0),(3,7.0)]),
            HashMap::from([(2,7.0),(3,6.0),(4,6.0),(5,7.0)]),
            HashMap::from([(3,7.0),(4,6.0),(5,7.0)]),
            HashMap::from([(5,6.0)]),
            HashMap::from([]),
            HashMap::from([]),
        ],vec![
            HashMap::from([]),
        ],vec![
            HashMap::from([(1,6.0)]),
            HashMap::from([]),
        ],vec![
            HashMap::from([(1,6.0)]),
            HashMap::from([]),
        ],vec![
            HashMap::from([(1,6.0),(2,6.0)]),
            HashMap::from([]),
            HashMap::from([]),
        ],vec![
            HashMap::from([(1,6.0),(2,5.0)]),
            HashMap::from([]),
            HashMap::from([]),
        ]
    ];
    let meta = GridMeta::new(7, 7);
    let supermeta = GridMeta::new(3, 3);
    let mut dems: Vec<Vec<u64>> = tiled.iter().map(|tile| keys64(&tile.map(|v| v as f64))).collect();
    let mut labels_grid = vec![vec![NOT_FILLED;meta.size()];supermeta.size()];
    let mut spillgraphs = Vec::with_capacity(supermeta.size());
    for (idx, (dem,labels)) in dems.iter_mut().zip(&mut labels_grid).enumerate() {
        let graph = fill_zhou_watersheds(&meta, dem, labels);
        assert_eq!(vals64(dem), filled[idx].map(|v| v as f64));
        assert_eq!(labels, &sheds[idx]);
        assert_eq!(graph64(&graph), graphs[idx]);
        spillgraphs.push(graph);
    }

    let grid = VecFillGrid::new(supermeta, dems
        .iter()
        .zip(&labels_grid)
        .enumerate()
        .map(|(i,(dem,labels))| {
            FillData::new(
                supermeta.i_to_xy(i).into(),
                meta,
                spillgraphs[i].clone(), meta.edges(dem), meta.edges(labels))
        })
        .collect()
    );

    let mut supergraph = SuperGraph::from_grid(&grid);
    assert_eq!(offsets_map(&supergraph), HashMap::from([
        ((0,0).into(),(1,3)),
        ((1,0).into(),(4,4)),
        ((2,0).into(),(8,3)),
        ((0,1).into(),(11,6)),
        ((1,1).into(),(17,1)),
        ((2,1).into(),(18,2)),
        ((0,2).into(),(20,2)),
        ((1,2).into(),(22,3)),
        ((2,2).into(),(25,3)),
    ]));
    assert_eq!(graph64(supergraph.spill_graph()), vec![
        HashMap::from([]),//0

        HashMap::from([(2,4.0),(3,4.0)]),//1
        HashMap::from([(1,4.0),(3,4.0)]),//2
        HashMap::from([(1,4.0),(2,4.0)]),//3

        HashMap::from([(5,4.0),(6,5.0),(7,6.0)]),//4
        HashMap::from([(4,4.0),(7,4.0)]),//5
        HashMap::from([(4,5.0)]),//6
        HashMap::from([(4,6.0),(5,4.0)]),//7

        HashMap::from([(9,4.0),(10,4.0)]),//8
        HashMap::from([(8,4.0)]),//9
        HashMap::from([(8,4.0)]), //10

        HashMap::from([(12,6.0),(14,7.0)]),//11
        HashMap::from([(11,6.0),(13,7.0),(14,6.0),(15,6.0),(16,7.0)]),//12
        HashMap::from([(12,7.0),(14,7.0),(15,6.0),(16,7.0)]),//13
        HashMap::from([(11,7.0),(12,6.0),(13,7.0),(16,6.0)]),//14
        HashMap::from([(12,6.0),(13,6.0)]),//15
        HashMap::from([(12,7.0),(13,7.0),(14,6.0)]),//16

        HashMap::from([]),

        HashMap::from([(19,6.0)]),
        HashMap::from([(18,6.0)]),

        HashMap::from([(21,6.0)]),
        HashMap::from([(20,6.0)]),

        HashMap::from([(23,6.0),(24,6.0)]),
        HashMap::from([(22,6.0)]),
        HashMap::from([(22,6.0)]),

        HashMap::from([(26,6.0),(27,5.0)]),
        HashMap::from([(25,6.0)]),
        HashMap::from([(25,5.0)]),
    ]);
    supergraph = supergraph.connect_edges(&grid);
    for ((idx,graph), expected) in graph64(supergraph.spill_graph()).iter().enumerate().zip(vec![
        HashMap::from([(1,1.0),(3,4.0),        (4,1.0),(5,2.0),(8,4.0),(9,3.0),(10,3.0),(12,4.0),(13,8.0),(15,5.0),(18,6.0),(19,3.0),(20,0.0),(22,3.0),(24,4.0),(25,4.0),(26,1.0),(27,3.0)]),//0
        HashMap::from([(0,1.0),(2,4.0),(3,4.0),  (13,7.0)]),//1
        HashMap::from([        (1,4.0),        (3,4.0),(4,9.0),(7,6.0),(13,5.0),(16,6.0),(17,8.0)]),//2
        HashMap::from([        (0,4.0),(1,4.0),(2,4.0),        (5,4.0),(7,3.0)]),//3
        HashMap::from([(5,4.0),(6,5.0),(7,6.0),(0,1.0),(2,9.0),(8,6.0),(9,3.0),(17,9.0),                        (16,9.0)]),//4
        HashMap::from([(4,4.0),(7,4.0),(0,2.0),(3,4.0)]),//5
        HashMap::from([        (4,5.0),(8,6.0),(17,4.0),(18,8.0)]),//6
        HashMap::from([                (4,6.0),(5,4.0),        (2,6.0),(3,3.0)]),//7
        HashMap::from([(9,4.0),(10,4.0),(6,6.0),               (4,6.0),(0,4.0),(10,4.0),        (17,8.0),(18,3.0)]),//8
        HashMap::from([(8,4.0),                                         (4,3.0),(0,3.0)]),//9
        HashMap::from([        (8,4.0),                                         (8,4.0),(0,3.0)]), //10
        HashMap::from([(12,6.0),         (14,7.0),      (17,7.0),(21,4.0),(22,7.0)]),//11
        HashMap::from([(11,6.0),(13,7.0),         (14,6.0),         (15,6.0),        (16,7.0), (0,4.0),(20,8.0),(21,7.0)]),//12
        HashMap::from([         (12,7.0),(1,7.0),(14,7.0),   (2,5.0),(15,6.0),(16,7.0),(0,8.0)]),//13
        HashMap::from([                  (11,7.0),(12,6.0),(13,7.0),(16,6.0),(17,5.0)]),//14
        HashMap::from([                                             (12,6.0),(13,6.0),                    (0,5.0)]),//15
        HashMap::from([                                                       (2,6.0),(12,7.0),(13,7.0),(14,6.0),(4,9.0),(17,6.0)]),//16
        HashMap::from([                         (6,4.0),(11,7.0),                (4,9.0),(2,8.0),(8,8.0),      (14,5.0),(16,6.0),(18,7.0),(19,6.0),(21,7.0),(22,7.0),(23,5.0),(25,6.0)]),//17
        HashMap::from([(19,6.0),                        (6,8.0),                                         (8,3.0),     (0,6.0),     (17,7.0)]),//18
        HashMap::from([(18,6.0),(23,6.0),(25,3.0),                                                                      (0,3.0),       (17,6.0)]),//19
        HashMap::from([(21,6.0),                                                                     (12,8.0),                   (0,0.0),          (22,6.0),(24,6.0)]),//20
        HashMap::from([(20,6.0),         (22,6.0),                (11,4.0),                                    (12,7.0),                            (17,7.0)]),//21
        HashMap::from([(23,6.0),(24,6.0),(21,6.0),(25,6.0),(27,5.0),           (11,7.0),                                                     (0,3.0),(20,6.0),(17,7.0)]),//22
        HashMap::from([(22,6.0),(19,6.0),                  (25,4.0),                                                                                                    (17,5.0)]),
        HashMap::from([         (22,6.0),                                                                                                            (0,4.0),  (20,6.0)]),
        HashMap::from([(26,6.0),(27,5.0),(19,3.0),(22,6.0),(23,4.0),                                                                                          (0,4.0),        (17,6.0)]),//25
        HashMap::from([(25,6.0),                                                                                                                                      (0,1.0)]),
        HashMap::from([         (25,5.0),                  (22,5.0),                                                                                                          (0,3.0)]),
    ]){
        assert_eq!(graph, &expected, "mismatch at {idx}");
    }
    let mut graph_elevs = vec![k64(f64::MIN); supergraph.spill_graph().len()];
    fill_graph(supergraph.spill_graph(), &mut graph_elevs, k64(f64::MIN));
    assert_eq!(vals64(&graph_elevs), &[
        f64::MIN,
        1.0,4.0,4.0,
        1.0,2.0,5.0,4.0,
        4.0,3.0,3.0,
        6.0,4.0,5.0,5.0,5.0,6.0,
        5.0,
        4.0,3.0,
        0.0,6.0,
        3.0,4.0,4.0,
        3.0,1.0,3.0
    ]);
}

#[test]
fn test_zhou_fill_state_doctest() {
    let meta = GridMeta::new(3, 3);
    let mut dem = keys64(&[
        2.0,1.0,2.0,
        2.0,0.0,2.0,
        2.0,2.0,2.0
    ]);
    let mut labels = [NOT_FILLED; 9];
    let mut fill_state = ZhouFillState::new(0);
    fill_state.add_edges(&meta, &dem);
    let mut ridges: Vec<RidgePoint> = Vec::new();
    while fill_state.step(&meta, &mut dem, &mut labels, &mut ridges) {}
    assert_eq!(vals64(&dem), [
        2.0,1.0,2.0,
        2.0,1.0,2.0,
        2.0,2.0,2.0,
    ])
}

#[test]
fn mod_test_cell() {
    let a = Cell { x: 0, y: 0, z: k64(0.0), roi: true };
    let b = Cell { x: 0, y: 0, z: k64(1.0), roi: true };
    assert_eq!(a, a);
    assert_ne!(a, b);
    assert!(a > b);
    let a = Cell { x: 0, y: 1, z: k64(0.0), roi: true };
    let b = Cell { x: 1, y: 0, z: k64(1.0), roi: true };
    assert_ne!(a, b);
    assert!(a > b);
    // graph cells order the same way: the lower spill elevation first
    let g = GraphCell::new(1, k64(0.5));
    let h = GraphCell::new(2, k64(1.5));
    assert!(g > h);
    assert_eq!(g.label(), 1);
    assert_eq!(v64(*h.spill_elev()), 1.5);
}

#[test]
fn mod_test_quad() {
    let dems = [[1, 1, 1, 0], [1, 1, 0, 1], [1, 0, 1, 1], [0, 1, 1, 1]];
    let meta = GridMeta::new(2, 2);
    let supermeta = GridMeta::new(2, 2);

    let mut filled_dems = Vec::with_capacity(dems.len());
    let mut all_labels = [[NOT_FILLED; 4]; 4];
    let fill_grid = VecFillGrid::new(
        supermeta,
        dems.iter()
            .zip(&mut all_labels)
            .enumerate()
            .map(|(i, (d, labels))| {
                let mut dem = keys32(&d.map(|v| v as f32));
                let spill_graph = fill_zhou_watersheds(&meta, &mut dem, labels);
                let res = FillData::new(
                    supermeta.i_to_xy(i).into(),
                    meta,
                    spill_graph,
                    meta.edges(&dem),
                    meta.edges(labels),
                );
                filled_dems.push(dem);
                res
            })
            .collect(),
    );

    // there were no depressions in individual tiles
    let as_vals: Vec<Vec<f32>> = filled_dems.iter().map(|d| vals32(d)).collect();
    assert_eq!(as_vals, dems.map(|t| t.map(|v| v as f32)));
    // and they're all one catchment
    assert_eq!(&all_labels, &[[0; 4]; 4]);

    let supergraph = SuperGraph::from_grid(&fill_grid).connect_edges(&fill_grid);

    assert_eq!(
        graph32(supergraph.spill_graph()),
        vec![
            HashMap::from([(1, 1.0), (2, 1.0), (3, 1.0), (4, 1.0)]),
            HashMap::from([(0, 1.0), (2, 0.0), (3, 0.0), (4, 0.0)]),
            HashMap::from([(0, 1.0), (1, 0.0), (3, 0.0), (4, 0.0)]),
            HashMap::from([(0, 1.0), (1, 0.0), (2, 0.0), (4, 0.0)]),
            HashMap::from([(0, 1.0), (1, 0.0), (2, 0.0), (3, 0.0)]),
        ]
    );

    let mut graph_elevs = vec![k32(f32::MIN); supergraph.spill_graph().len()];
    fill_graph(supergraph.spill_graph(), &mut graph_elevs, k32(f32::MIN));
    // the graph is now filled;
    for (tc, (start, len)) in supergraph.offsets() {
        let su = *start as usize;
        let spill_elevs = &graph_elevs[su..su + len];
        let idx = supermeta.xy_to_i(tc.x, tc.y);
        let tile = &mut filled_dems[idx];
        let labels = &all_labels[idx];
        for (z, label) in tile.iter_mut().zip(labels) {
            if *z < spill_elevs[*label as usize] {
                *z = spill_elevs[*label as usize]
            }
        }
    }
    // the central depression is now filled
    let as_vals: Vec<Vec<f32>> = filled_dems.iter().map(|d| vals32(d)).collect();
    assert_eq!(as_vals, vec![vec![1.0; 4]; 4]);
}

#[test]
fn test_doctest() {
    // the simple case: filling a simple dem
    let mut dem = keys32(&[1, 2, 2, 2, 2, 0, 0, 2, 2, 0, 0, 2, 2, 2, 2, 2].map(|v| v as f32));
    fill_zhou2016(&GridMeta::new(4, 4), &mut dem, &mut [NOT_FILLED; 16]);
    assert_eq!(
        vals32(&dem),
        [1, 2, 2, 2, 2, 1, 1, 2, 2, 1, 1, 2, 2, 2, 2, 2,].map(|v| v as f32)
    );
    // the more complex case: filling a tiled dem
    let supermeta = GridMeta::new(2, 2);
    let mut tiled_dem: Vec<Vec<u64>> = [
        [1.0, 2.0, 2.0, 0.0],
        [2.0, 2.0, 0.0, 2.0],
        [2.0, 0.0, 2.0, 2.0],
        [0.0, 2.0, 2.0, 2.0],
    ]
    .iter()
    .map(|t| keys32(t))
    .collect();
    let mut tiled_labels = [[NOT_FILLED; 4]; 4];
    let fill_datas = tiled_dem
        .iter_mut()
        .zip(&mut tiled_labels)
        .enumerate()
        .map(|(idx, (dem, labels))| {
            let tile_meta = GridMeta::new(2, 2);
            let spill_graph = fill_zhou_watersheds(&tile_meta, dem, labels);
            let dem_edges = tile_meta.edges(dem);
            let label_edges = tile_meta.edges(labels);
            let tile_coord = supermeta.i_to_xy(idx);
            FillData::new(tile_coord.into(), tile_meta, spill_graph, dem_edges, label_edges)
        })
        .collect();
    let fill_grid = VecFillGrid::new(supermeta, fill_datas);
    let raise_grid = fill_supergraph(fill_grid, k32(f32::MIN), k32(0.0));
    for (tile_info, graph_elevs) in raise_grid {
        let tile_idx = supermeta.xy_to_i(tile_info.xy().x, tile_info.xy().y);
        raise_catchments(&mut tiled_dem[tile_idx], &tiled_labels[tile_idx], &graph_elevs);
    }
    let as_vals: Vec<Vec<f32>> = tiled_dem.iter().map(|d| vals32(d)).collect();
    assert_eq!(
        as_vals,
        vec![
            vec![1.0, 2.0, 2.0, 1.0,],
            vec![2.0, 2.0, 1.0, 2.0,],
            vec![2.0, 1.0, 2.0, 2.0,],
            vec![1.0, 2.0, 2.0, 2.0,]
        ]
    );
}

fn run_fill_graph(graph: Vec<HashMap<TLabel, f64>>) -> (Vec<f64>, Vec<u32>) {
    let graph = key_graph64(graph);
    let mut elevs = vec![k64(f64::MIN); graph.len()];
    let order = fill_graph(&graph, &mut elevs, k64(f64::MIN));
    (vals64(&elevs), order)
}

#[test]
fn fill_graph_test_fill_graph_depression() {
    let (elevs, flow_order) = run_fill_graph(vec![
        HashMap::from([(1, 1.0)]),
        HashMap::from([(2, 0.5)]),
        HashMap::new(),
    ]);
    assert_eq!(&elevs, &[f64::MIN, 1.0, 1.0]);
    assert_eq!(&flow_order, &[0, 1, 2]);
}

#[test]
fn fill_graph_test_fill_graph_flat() {
    let (elevs, flow_order) = run_fill_graph(vec![
        HashMap::from([(1, 0.5)]),
        HashMap::from([(2, 0.5)]),
        HashMap::new(),
    ]);
    assert_eq!(&elevs, &[f64::MIN, 0.5, 0.5]);
    assert_eq!(&flow_order, &[0, 1, 2]);
}

#[test]
fn fill_graph_test_fill_graph_slope() {
    let (elevs, flow_order) = run_fill_graph(vec![
        HashMap::from([(1, 0.5)]),
        HashMap::from([(2, 1.0)]),
        HashMap::new(),
    ]);
    assert_eq!(&elevs, &[f64::MIN, 0.5, 1.0]);
    assert_eq!(&flow_order, &[0, 1, 2]);
}

#[test]
fn fill_graph_test_fill_graph_square() {
    let (elevs, flow_order) = run_fill_graph(vec![
        HashMap::from([(1, 0.5), (2, 1.0)]),
        HashMap::from([(0, 0.5), (3, 1.0)]),
        HashMap::from([(0, 1.0), (3, 1.5)]),
        HashMap::from([(1, 1.0), (2, 1.5)]),
    ]);
    assert_eq!(&elevs, &[f64::MIN, 0.5, 1.0, 1.0]);
    assert_eq!(&flow_order, &[0, 1, 2, 3]);
}

#[test]
fn fill_graph_test_fill_graph_tet() {
    let (elevs, flow_order) = run_fill_graph(vec![
        HashMap::from([(1, 0.25), (2, 1.0), (3, 0.0)]),
        HashMap::from([(0, 0.25), (3, 1.0)]),
        HashMap::from([(0, 1.0), (3, 1.5)]),
        HashMap::from([(1, 1.0), (2, 1.5)]),
    ]);
    assert_eq!(&elevs, &[f64::MIN, 0.25, 1.0, 0.0]);
    assert_eq!(&flow_order, &[0, 2, 3, 1]);
}

#[test]
fn graph_fill_state_steps_lowest_first() {
    let graph = key_graph64(vec![
        HashMap::from([(1, 1.0)]),
        HashMap::from([(2, 0.5)]),
        HashMap::new(),
    ]);
    let mut elevs = vec![k64(f64::MIN); 3];
    let mut state = GraphFillState::new(3);
    assert_eq!(state.priority_queue().len(), 0);
    state.seed(0, k64(f64::MIN));
    assert_eq!(state.priority_queue().len(), 1);
    assert!(state.step(&graph, &mut elevs));
    assert!(state.step(&graph, &mut elevs));
    assert!(state.step(&graph, &mut elevs));
    assert!(!state.step(&graph, &mut elevs));
    assert_eq!(state.into_processed(), vec![0, 1, 2]);
    assert_eq!(vals64(&elevs), [f64::MIN, 1.0, 1.0]);
}

fn supergraph_of(tiles: Vec<(TileCoord, Vec<HashMap<TLabel, f32>>, [f32; 4], Vec<TLabel>)>, supermeta: GridMeta) -> SuperGraph {
    let meta = GridMeta::new(2, 2);
    let datas = tiles
        .into_iter()
        .map(|(tc, graph, dem, label_edges)| {
            FillData::new(tc, meta, key_graph32(graph), meta.edges(&keys32(&dem)), label_edges)
        })
        .collect();
    let grid = VecFillGrid::new(supermeta, datas);
    SuperGraph::from_grid(&grid).connect_edges(&grid)
}

#[test]
fn test_build_supergraph_single_empty() {
    let meta = GridMeta::new(2, 2);
    let supergraph = supergraph_of(
        vec![((0, 0).into(), vec![HashMap::new()], [0.0, 1.0, 2.0, 3.0], vec![0; meta.skirt_size()])],
        GridMeta::new(1, 1),
    );
    assert_eq!(
        graph32(supergraph.spill_graph()),
        vec![HashMap::from([(1, 0.0)]), HashMap::from([(0, 0.0)])]
    );
    assert_eq!(offsets_map(&supergraph), HashMap::from([((0, 0).into(), (1, 1))]));
}

#[test]
fn test_build_supergraph_single_twolabels() {
    let meta = GridMeta::new(2, 2);
    let supergraph = supergraph_of(
        vec![(
            (0, 0).into(),
            vec![HashMap::from([(1, 2.0)]), HashMap::new()],
            [0.0, 1.0, 2.0, 3.0],
            meta.edges(&[0, 0, 1, 1]),
        )],
        GridMeta::new(1, 1),
    );
    assert_eq!(
        graph32(supergraph.spill_graph()),
        vec![
            HashMap::from([(1, 0.0), (2, 2.0)]),
            HashMap::from([(0, 0.0), (2, 2.0)]),
            HashMap::from([(0, 2.0), (1, 2.0)])
        ]
    );
    assert_eq!(offsets_map(&supergraph), HashMap::from([((0, 0).into(), (1, 2))]));
}

#[test]
fn test_build_supergraph_double_empty() {
    let meta = GridMeta::new(2, 2);
    let supergraph = supergraph_of(
        vec![
            (TileCoord::new(0, 0), vec![HashMap::new()], [0.0, 1.0, 4.0, 5.0], vec![0; meta.skirt_size()]),
            (TileCoord::new(1, 0), vec![HashMap::new()], [2.0, 3.0, 6.0, 7.0], vec![0; meta.skirt_size()]),
        ],
        GridMeta::new(2, 1),
    );
    assert_eq!(
        graph32(supergraph.spill_graph()),
        vec![
            HashMap::from([(1, 0.0), (2, 2.0)]),
            HashMap::from([(0, 0.0), (2, 2.0)]),
            HashMap::from([(0, 2.0), (1, 2.0)])
        ]
    );
    assert_eq!(
        offsets_map(&supergraph),
        HashMap::from([((0, 0).into(), (1, 1)), ((1, 0).into(), (2, 1))])
    );
}

#[test]
fn test_build_supergraph_double_diagonal() {
    let meta = GridMeta::new(2, 2);
    // 0 1|0 0
    // 0 0|1 0
    let supergraph = supergraph_of(
        vec![
            (TileCoord::new(0, 0), vec![HashMap::new()], [0.0, 1.0, 0.0, 0.0], vec![0; meta.skirt_size()]),
            (TileCoord::new(1, 0), vec![HashMap::new()], [0.0, 0.0, 1.0, 0.0], vec![0; meta.skirt_size()]),
        ],
        GridMeta::new(2, 1),
    );
    assert_eq!(
        graph32(supergraph.spill_graph()),
        vec![
            HashMap::from([(1, 0.0), (2, 0.0)]),
            HashMap::from([(0, 0.0), (2, 0.0)]),
            HashMap::from([(0, 0.0), (1, 0.0)])
        ]
    );
    assert_eq!(
        offsets_map(&supergraph),
        HashMap::from([((0, 0).into(), (1, 1)), ((1, 0).into(), (2, 1))])
    );
}

#[test]
fn test_build_supergraph_quad_empty() {
    let meta = GridMeta::new(2, 2);
    let datas = vec![
        (TileCoord::new(0, 0), [0.0f32, 1.0, 4.0, 5.0]),
        (TileCoord::new(1, 0), [2.0, 3.0, 6.0, 7.0]),
        (TileCoord::new(0, 1), [8.0, 9.0, 12.0, 13.0]),
        (TileCoord::new(1, 1), [10.0, 11.0, 14.0, 15.0]),
    ]
    .into_iter()
    .map(|(tc, dem)| FillData::new(tc, meta, vec![HashMap::new()], meta.edges(&keys32(&dem)), vec![0; meta.skirt_size()]))
    .collect();
    let grid = VecFillGrid::new(GridMeta::new(2, 2), datas);
    let mut supergraph = SuperGraph::from_grid(&grid);
    assert_eq!(supergraph.spill_graph(), &vec![HashMap::new(); 5]);
    supergraph = supergraph.connect_edges(&grid);
    let spill_graph = vec![
        HashMap::from([(1, 0.0), (2, 2.0), (3, 8.0), (4, 11.0)]),
        HashMap::from([(0, 0.0), (2, 2.0), (3, 8.0), (4, 10.0)]),
        HashMap::from([(0, 2.0), (1, 2.0), (3, 9.0), (4, 10.0)]),
        HashMap::from([(0, 8.0), (1, 8.0), (2, 9.0), (4, 10.0)]),
        HashMap::from([(0, 11.0), (1, 10.0), (2, 10.0), (3, 10.0)]),
    ];
    assert_eq!(graph32(supergraph.spill_graph()), spill_graph);
    let offsets = HashMap::from([
        ((0, 0).into(), (1, 1)),
        ((1, 0).into(), (2, 1)),
        ((0, 1).into(), (3, 1)),
        ((1, 1).into(), (4, 1)),
    ]);
    assert_eq!(offsets_map(&supergraph), offsets);
}

#[test]
fn fill_zhou2016_keeps_edges_and_only_raises() {
    // a pit in the middle of a 3-by-3 grid is raised to its lowest edge
    let meta = GridMeta::new(3, 3);
    let before = keys64(&[3.0, 2.0, 3.0, 3.0, 0.5, 3.0, 3.0, 3.0, 3.0]);
    let mut dem = before.clone();
    let mut labels = [NOT_FILLED; 9];
    fill_zhou2016(&meta, &mut dem, &mut labels);
    assert_eq!(vals64(&dem), [3.0, 2.0, 3.0, 3.0, 2.0, 3.0, 3.0, 3.0, 3.0]);
    for (a, b) in dem.iter().zip(&before) {
        assert!(a >= b);
    }
    assert!(labels.iter().all(|l| *l != NOT_FILLED));
}

#[test]
fn tiled_fill_through_a_map_grid() {
    let supermeta = GridMeta::new(2, 2);
    let mut tiled_dem: Vec<Vec<u64>> = [
        [1.0, 2.0, 2.0, 0.0],
        [2.0, 2.0, 0.0, 2.0],
        [2.0, 0.0, 2.0, 2.0],
        [0.0, 2.0, 2.0, 2.0],
    ]
    .iter()
    .map(|t| keys32(t))
    .collect();
    let mut tiled_labels = vec![Vec::new(); 4];
    let mut grid = HashMapFillGrid::new();
    for idx in [3, 1, 0, 2] {
        let (x, y) = supermeta.i_to_xy(idx);
        let info = TileInfo::new(TileCoord::new(x, y), GridMeta::new(2, 2));
        let (data, labels) = initial_fill(info, &mut tiled_dem[idx]);
        tiled_labels[idx] = labels;
        grid.insert(data);
    }
    assert_eq!(grid.len(), 4);
    assert_eq!(grid.neighbour(&TileCoord::new(0, 0), Dir::Right), Some(TileCoord::new(1, 0)));
    assert_eq!(grid.neighbour(&TileCoord::new(0, 0), Dir::Left), None);
    assert_eq!(grid.tile(&TileCoord::new(1, 1)).tile_info().xy(), TileCoord::new(1, 1));
    let raise_grid = fill_supergraph(grid, k32(f32::MIN), k32(0.0));
    for (tile_info, graph_elevs) in raise_grid {
        let tile_idx = supermeta.xy_to_i(tile_info.xy().x, tile_info.xy().y);
        raise_catchments(&mut tiled_dem[tile_idx], &tiled_labels[tile_idx], &graph_elevs);
    }
    let as_vals: Vec<Vec<f32>> = tiled_dem.iter().map(|d| vals32(d)).collect();
    assert_eq!(
        as_vals,
        vec![vec![1.0, 2.0, 2.0, 1.0], vec![2.0, 2.0, 1.0, 2.0], vec![2.0, 1.0, 2.0, 2.0], vec![1.0, 2.0, 2.0, 2.0]]
    );
}

#[test]
fn map_grid_insert_replaces_a_tile() {
    let meta = GridMeta::new(2, 2);
    let mut grid = HashMapFillGrid::new();
    let mk = |x: usize, y: usize| FillData::new(TileCoord::new(x, y), meta, vec![HashMap::new()], vec![0; meta.skirt_size()], vec![0; meta.skirt_size()]);
    grid.insert(mk(0, 0));
    grid.insert(mk(1, 0));
    grid.insert(mk(0, 0));
    assert_eq!(grid.len(), 2);
    assert_eq!(grid.n_tiles(), 2);
    assert_eq!(grid.neighbour(&TileCoord::new(1, 0), Dir::Left), Some(TileCoord::new(0, 0)));
    assert_eq!(grid.neighbour(&TileCoord::new(1, 0), Dir::Bot), None);
    let (labels, elevs) = grid.edge(&TileCoord::new(1, 0), Dir::Top);
    assert_eq!(labels.len(), 2);
    assert_eq!(elevs.len(), 2);
}

#[test]
fn zhou_fill_raises_the_pit_to_its_spill_level_only() {
    // the pit spills over the low corner, diagonally
    let mut dem = keys64(&[
        1.0, 2.0, 2.0, 2.0,
        2.0, 0.0, 0.0, 2.0,
        2.0, 0.0, 0.0, 2.0,
        2.0, 2.0, 2.0, 2.0,
    ]);
    let mut labels = vec![NOT_FILLED; 16];
    fill_zhou2016(&GridMeta::new(4, 4), &mut dem, &mut labels);
    assert_eq!(
        vals64(&dem),
        [1.0, 2.0, 2.0, 2.0, 2.0, 1.0, 1.0, 2.0, 2.0, 1.0, 1.0, 2.0, 2.0, 2.0, 2.0, 2.0]
    );
    assert!(labels.iter().all(|l| *l != NOT_FILLED));
}

#[test]
fn watershed_graph_notes_each_meeting_pair_at_its_lowest_ridge() {
    // two watersheds, split by a ridge that is lowest (3) in the middle row
    let mut dem = keys64(&[
        0.0, 5.0, 1.0,
        4.0, 3.0, 4.0,
        0.0, 5.0, 1.0,
    ]);
    let meta = GridMeta::new(3, 3);
    let mut labels = vec![NOT_FILLED; 9];
    let g = fill_zhou_watersheds(&meta, &mut dem, &mut labels);
    // every pair of neighbouring cells of different watersheds is noted, no
    // higher than the higher of the two cells
    for i in 0..9usize {
        for j in 0..9usize {
            let (xi, yi, xj, yj) = (i % 3, i / 3, j % 3, j / 3);
            let near = i != j && xi.abs_diff(xj) <= 1 && yi.abs_diff(yj) <= 1;
            if near && labels[i] != labels[j] {
                let (lo, hi) = if labels[i] < labels[j] { (labels[i], labels[j]) } else { (labels[j], labels[i]) };
                let e = g[lo as usize][&hi];
                assert!(e <= dem[i].max(dem[j]));
            }
        }
    }
}
