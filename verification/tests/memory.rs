use step_perf::memory::aw_trace::trace_aw_write;
use step_perf::memory::data;
use step_perf::memory::dyn_linear_offchip_load::DynLinearOffChipLoad;
use step_perf::memory::dyn_offchip_store::DynOffChipStore;
use step_perf::memory::metadata_gen::MetadataGen;
use step_perf::memory::offchip_load::OffChipLoad;
use step_perf::memory::offchip_store::{OffChipStore, OffChipStoreRamulator};
use step_perf::memory::random_offchip_load::RandomOffChipLoad;
use step_perf::memory::random_offchip_store::RandomOffChipStore;
use step_perf::memory::requests::dispatch;
use step_perf::memory::shape_text::{checked_shape, read_shape, shape_text, ShapeError};
use step_perf::memory::HbmAddrEnum;
use step_perf::memory_simple::hbm_ld_st::HBMLoadContext;
use step_perf::memory_simple::{parse_python_bool, HBMEntry};
use step_perf::operator::batchedmatvec::QKt;
use step_perf::operator::flatmap::DynAddrGen;
use step_perf::operator::functions::matmul;
use step_perf::operator::matmul::Proj;
use step_perf::operator::mux_demux::{TileDemux, Token};
use step_perf::build_sim::channel::ChannelMap;
use step_perf::primitives::array::Array2;
use step_perf::primitives::buffer::Buffer;
use step_perf::primitives::elem::Elem;
use step_perf::primitives::tensor::{tiles_of, Tensor};
use step_perf::primitives::tile::Tile;
use step_perf::ramulator::hbm_context::{HBMTrafficStats, ParAddrs};

/// The tiles of a load, as a stream.
fn loaded<T>(addrs: Vec<HbmAddrEnum<T>>) -> Vec<Elem<Tile<T>>> {
    addrs
        .into_iter()
        .map(|a| match a {
            HbmAddrEnum::ADDR(_, tile) => Elem::Val(tile),
            HbmAddrEnum::ADDRSTOP(_, tile, level) => Elem::ValStop(tile, level),
        })
        .collect()
}

fn requested<T>(addrs: &Vec<HbmAddrEnum<T>>) -> Vec<Vec<u64>> {
    addrs
        .iter()
        .map(|a| match a {
            HbmAddrEnum::ADDR(addrs, _) => addrs.clone(),
            HbmAddrEnum::ADDRSTOP(addrs, _, _) => addrs.clone(),
        })
        .collect()
}

#[test]
fn round_trip_test_4d() {
    // [32, 32] in tiles of 16 by 16: [2, 2] tiles
    let load: DynLinearOffChipLoad<u32> =
        DynLinearOffChipLoad::new(&vec![32, 32], None, 16, 16, 4, 0, 64, 4, 0);
    let tile = Tile::<u32>::new_blank((16, 16), 4, true);
    let expected = Buffer::new(vec![2, 2], vec![tile; 2 * 2], 0).to_elem_iter();
    assert_eq!(loaded(load.generate_addr()), expected);
}

/// The tiles of a 32 by 32 tensor: 0-255, 256-511, 512-767 and 768-1023.
fn sequential_tiles() -> Vec<Elem<Tile<u32>>> {
    let tiles = (0..4u32)
        .map(|i| {
            let data = Array2::from_shape_vec((16, 16), (i * 256..(i + 1) * 256).collect());
            Tile::new(data.unwrap(), 4, true)
        })
        .collect();
    Buffer::new(vec![2, 2], tiles, 0).to_elem_iter()
}

#[test]
fn round_trip_test_store() {
    let path = Some("test_output".to_string());
    let store = DynOffChipStore::new(&vec![32, 32], 16, 16, path, 0, 64, 4, 0);
    let mut state = store.plan.start();
    for elem in sequential_tiles().iter() {
        let request = store.step(&mut state, elem);
        // One request of 64 bytes for each of the sixteen rows.
        assert_eq!(request.acks, 16);
    }
    let stored = store.finish(state).expect("a path was given");
    assert_eq!(stored.shape, vec![32, 32], "Stored tensor shape should be [32, 32]");
    assert_eq!(stored.data.len(), 32 * 32);
    for row in 0..32 {
        for col in 0..32 {
            let tile = 2 * (row / 16) + col / 16;
            let expected = (256 * tile + 16 * (row % 16) + col % 16) as u32;
            assert_eq!(stored.data[row * 32 + col], expected);
        }
    }
}

#[test]
fn shapes_are_written_and_read_as_text() {
    assert_eq!(shape_text(&vec![32, 5]), "[32,5]");
    assert_eq!(shape_text(&vec![]), "[]");
    assert_eq!(read_shape(&shape_text(&vec![2, 32, 5]), 16, 1), Ok(vec![2, 32, 5]));
    assert_eq!(read_shape(" [32, 32]\n", 16, 16), Ok(vec![32, 32]));
    assert_eq!(read_shape("[32, -1]", 16, 16), Err(ShapeError::Text));
    assert_eq!(read_shape("[32, 32", 16, 16), Err(ShapeError::Text));
    assert_eq!(read_shape("[32]", 16, 16), Err(ShapeError::Rank));
    assert_eq!(read_shape("[32, 32]", 16, 0), Err(ShapeError::EmptyTile));
    assert_eq!(checked_shape(Some(vec![4, 6]), 2, 2), Ok(vec![4, 6]));
    assert_eq!(checked_shape(None, 2, 2), Err(ShapeError::Text));

    let load = DynLinearOffChipLoad::from_shape_text(
        "[4, 6]",
        Some((0..24u32).collect()),
        2,
        3,
        4,
        0,
        64,
        1,
        0,
    )
    .unwrap();
    assert_eq!(load.tensor_shape_tiled, vec![2, 2]);
    assert_eq!(load.underlying.unwrap().shape, vec![4, 6]);
    let short = DynLinearOffChipLoad::from_shape_text("[4, 6]", Some(vec![0u32]), 2, 3, 4, 0, 64, 1, 0);
    assert_eq!(short.err(), Some(ShapeError::Data));
    let store = DynOffChipStore::from_shape_text("[4, 6]", 2, 3, None, 0, 64, 1, 0).unwrap();
    assert_eq!(store.plan.tensor_shape_tiled, vec![2, 2]);
    let store = DynOffChipStore::from_shape_text("4, 6", 2, 3, None, 0, 64, 1, 0);
    assert_eq!(store.err(), Some(ShapeError::Text));
}

#[test]
fn what_was_stored_is_loaded_again() {
    let path = Some("out".to_string());
    let store = OffChipStore::new(vec![2, 2], 16, 16, path, 0, 64, 4, 0);
    let mut state = store.plan.start();
    let mut written = Vec::new();
    for elem in sequential_tiles().iter() {
        let request = store.step(&mut state, elem);
        let mut addrs = Vec::new();
        for dispatch in request.dispatches {
            addrs.extend(dispatch.addrs);
        }
        written.push(addrs);
    }
    let stored = store.finish(state).unwrap();
    let tensor = Tensor::from_shape_vec(stored.shape, stored.data).unwrap();
    let load = OffChipLoad::new(
        vec![2, 2],
        vec![2, 1],
        vec![2, 2],
        Some(tensor),
        16,
        16,
        4,
        0,
        64,
        4,
        0,
    );
    let addrs = load.generate_addr();
    assert_eq!(requested(&addrs), written);
    assert_eq!(loaded(addrs), sequential_tiles());
    assert_eq!(load.loaded_elems(), 1024);
    assert_eq!(load.on_chip_req_elems(), 256);
}

#[test]
fn without_a_path_nothing_is_saved() {
    let store = OffChipStoreRamulator::new(vec![2, 2], 16, 16, None, 1000, 64, 0);
    let mut state = store.plan.start();
    let tiles = sequential_tiles();
    let first = store.step(&mut state, &tiles[0]);
    let second = store.step(&mut state, &tiles[1]);
    assert_eq!(first.acks, 16);
    assert_eq!(first.dispatches.len(), 16);
    assert_eq!((first.dispatches[0].delay, &first.dispatches[0].addrs), (0, &vec![1000]));
    assert_eq!((first.dispatches[1].delay, &first.dispatches[1].addrs), (1, &vec![1000 + 128]));
    assert_eq!(second.dispatches[0].addrs, vec![1000 + 1024]);
    assert_eq!(store.on_chip_req_elems(), 256);
    assert_eq!(store.stored_elems(), 1024);
    let (_, stored) = store.plan.run(&tiles);
    assert!(stored.is_none());
}

#[test]
fn test_generate_addr() {
    const ADDR_OFFSET: u64 = 64;
    const B: usize = 32;
    const H: usize = 64;
    let n_byte = 2;
    let tensor_shape_tiled = vec![H / 32, H / H];
    let stride = vec![0, H / H, 1];
    let out_shape_tiled = vec![B / 16, H / 32, H / H];
    let (tile_row, tile_col) = (16usize, 32usize);

    let load: OffChipLoad<f32> = OffChipLoad::new(
        tensor_shape_tiled.clone(),
        stride.clone(),
        out_shape_tiled.clone(),
        None,
        tile_row,
        tile_col,
        n_byte,
        0,
        ADDR_OFFSET,
        1,
        0,
    );
    let addrs = load.generate_addr();

    let total_tiles: usize = out_shape_tiled.iter().product();
    assert_eq!(addrs.len(), total_tiles);
    for flat_idx in 0..total_tiles {
        let mut remaining = flat_idx;
        let mut multi_index = vec![0; out_shape_tiled.len()];
        for i in (0..out_shape_tiled.len()).rev() {
            multi_index[i] = remaining % out_shape_tiled[i];
            remaining /= out_shape_tiled[i];
        }
        let mut tile_idx = 0;
        for (dim, &idx_in_dim) in multi_index.iter().enumerate() {
            tile_idx += idx_in_dim * stride[dim];
        }
        tile_idx %= tensor_shape_tiled.iter().product::<usize>();

        let base_addr_i = (tile_idx * tile_row * tile_col * n_byte) as u64;
        let row_offset = tensor_shape_tiled[1] * tile_col * n_byte;
        let mut tile_addrs = vec![];
        for r in 0..tile_row {
            for c in (0..(tile_col * n_byte)).step_by(ADDR_OFFSET as usize) {
                tile_addrs.push(base_addr_i + (r * row_offset + c) as u64);
            }
        }
        let mut level = 0;
        for dim in (0..out_shape_tiled.len()).rev() {
            if multi_index[dim] == out_shape_tiled[dim] - 1 {
                level = (out_shape_tiled.len() - dim) as u32;
            } else {
                break;
            }
        }
        match &addrs[flat_idx] {
            HbmAddrEnum::ADDR(found, tile) => {
                assert_eq!(level, 0);
                assert_eq!(*found, tile_addrs);
                assert_eq!(*tile, Tile::new_blank((tile_row, tile_col), n_byte, true));
            }
            HbmAddrEnum::ADDRSTOP(found, tile, stop) => {
                assert_eq!(level, *stop);
                assert_eq!(*found, tile_addrs);
                assert_eq!(*tile, Tile::new_blank((tile_row, tile_col), n_byte, true));
            }
        }
    }
}

#[test]
fn a_linear_load_is_the_identity_view() {
    let data = || Some((0..24u32).collect::<Vec<u32>>());
    let linear =
        DynLinearOffChipLoad::from_shape_text("[4,6]", data(), 2, 3, 4, 64, 8, 1, 0).unwrap();
    let tensor = Tensor::from_shape_vec(vec![4, 6], data().unwrap());
    let view = OffChipLoad::new(vec![2, 2], vec![2, 1], vec![2, 2], tensor, 2, 3, 4, 64, 8, 1, 0);
    let (a, b) = (linear.generate_addr(), view.generate_addr());
    assert_eq!(requested(&a), requested(&b));
    assert_eq!(requested(&a)[3][0], 64 + 3 * 24);
    assert_eq!(loaded(a), loaded(b));
}

#[test]
fn a_tensor_is_cut_into_tiles() {
    let tensor = Tensor::from_shape_vec(vec![4, 4], (0..16u32).collect()).unwrap();
    let tiles = tiles_of(&tensor, 2, 2);
    let data: Vec<Vec<u32>> = tiles.iter().map(|t| t.data.clone()).collect();
    assert_eq!(
        data,
        vec![vec![0, 1, 4, 5], vec![2, 3, 6, 7], vec![8, 9, 12, 13], vec![10, 11, 14, 15]]
    );
    assert!(Tensor::from_shape_vec(vec![4, 4], vec![0u32; 15]).is_none());
}

#[test]
fn requests_are_dispatched_in_parallel() {
    let sent = dispatch(&vec![1, 2, 3, 4, 5], 2);
    let addrs: Vec<Vec<u64>> = sent.iter().map(|d| d.addrs.clone()).collect();
    assert_eq!(addrs, vec![vec![1, 2], vec![3, 4], vec![5]]);
    assert!(sent[0].delay < sent[1].delay && sent[1].delay < sent[2].delay);
}

fn index(i: u64) -> Elem<Tile<u64>> {
    Elem::Val(Tile::new(Array2::from_shape_vec((1, 1), vec![i]).unwrap(), 8, false))
}

#[test]
fn a_random_read_follows_a_random_write() {
    let tensor = || Tensor::from_shape_vec(vec![2, 4], (0..8u32).collect()).unwrap();
    let mut store = RandomOffChipStore::new(
        vec![1, 2],
        Some("out".to_string()),
        Some(tensor()),
        2,
        2,
        4,
        0,
        4,
        1,
        0,
        true,
    );
    let written = Tile::new(Array2::from_shape_vec((2, 2), vec![90u32, 91, 92, 93]).unwrap(), 4, true);
    let (addrs, ack) = store.step(&index(1), &Elem::Val(written.clone()));
    assert_eq!(addrs, vec![16, 20, 32, 36]);
    assert_eq!(ack, Elem::Val(true));
    let saved = store.finish().unwrap();
    assert_eq!(saved.data, vec![0, 1, 90, 91, 4, 5, 92, 93]);
    assert_eq!(saved.shape, vec![2, 4]);

    let tensor = Tensor::from_shape_vec(saved.shape, saved.data).unwrap();
    let load = RandomOffChipLoad::new(vec![1, 2], Some(tensor), 2, 2, 4, 0, 4, 1, 0);
    let read = load.step(&index(1));
    assert_eq!(read.addrs, addrs);
    assert_eq!(read.data, Elem::Val(written));
    let untouched = load.create_tile_data(0);
    assert_eq!(untouched.underlying.unwrap().data, vec![0, 1, 4, 5]);
    assert_eq!(load.generate_tile_addresses(0), vec![0, 4, 16, 20]);
}

#[test]
fn a_view_is_read_tile_by_tile() {
    // A [2,3] grid of tiles read transposed, at once and by its indices.
    let tensor = || Tensor::from_shape_vec(vec![2, 6], (0..12u32).collect()).unwrap();
    let (grid, stride, view) = (vec![2, 3], vec![1, 3], vec![3, 2]);
    let load = OffChipLoad::new(
        grid.clone(),
        stride.clone(),
        view.clone(),
        Some(tensor()),
        1,
        2,
        4,
        0,
        4,
        1,
        0,
    );
    let random = RandomOffChipLoad::new(grid.clone(), Some(tensor()), 1, 2, 4, 0, 4, 1, 0);
    let indices = DynAddrGen::new(&grid, &stride, &view, 0, 0).step(&index(0));
    let requests = load.generate_addr();
    assert_eq!(indices.len(), 6);
    let addrs = requested(&requests);
    for (k, elem) in loaded(requests).into_iter().enumerate() {
        let read = random.step(&indices[k]);
        assert_eq!(read.addrs, addrs[k]);
        assert_eq!(read.data, elem);
    }
}

#[test]
fn test_3d() {
    let tensor = Tensor::from_shape_vec(vec![2, 3, 2], (0..12i32).collect()).unwrap();
    let elems = MetadataGen::new(tensor, 0).get_elem_array();
    assert_eq!(elems.len(), 12);
    assert_eq!(elems[0], Elem::Val(0));
    assert_eq!(elems[1], Elem::ValStop(1, 1));
    assert_eq!(elems[5], Elem::ValStop(5, 2));
    assert_eq!(elems[11], Elem::ValStop(11, 3));
}

#[test]
fn a_write_is_traced_in_one_line() {
    assert_eq!(
        trace_aw_write(7, 1203, &[2, 16], 1, true),
        "{\"stage\":\"step_perf\",\"kind\":\"aw_write\",\"id\":7,\"file_path_id\":7,\
         \"cycle\":1203,\"tensor_shape_tiled\":[2,16],\"st\":1,\"end\":true}"
    );
    let line = trace_aw_write(0, 0, &[], 0, false);
    assert!(line.contains("\"tensor_shape_tiled\":[],\"st\":0,\"end\":false"));
}

#[test]
fn booleans_are_read_as_python_writes_them() {
    assert_eq!(parse_python_bool("True"), Some(true));
    assert_eq!(parse_python_bool("False"), Some(false));
    assert_eq!(parse_python_bool("true"), None);
    assert_eq!(parse_python_bool(""), None);
    assert_eq!(parse_python_bool("Truex"), None);
}

#[test]
fn a_recorded_trace_is_replayed() {
    let entry = HBMEntry {
        outer: 1,
        m: 2,
        n: 3,
        k: 4,
        time_block_ns: 50,
        output_tile_available: true,
        num_elems: 6,
    };
    let (time, tile) = HBMLoadContext::new("trace.csv".to_string()).step(100, &entry);
    assert_eq!(time, 150);
    assert_eq!((tile.outer, tile.m, tile.n, tile.k, tile.num_elems), (1, 2, 3, 4, 6));
    assert!(tile.output_tile_available);
}

#[test]
fn projections_wait_for_the_slowest_part() {
    let entry = HBMEntry {
        outer: 0,
        m: 0,
        n: 8,
        k: 0,
        time_block_ns: 0,
        output_tile_available: false,
        num_elems: 0,
    };
    let weight = step_perf::memory_simple::hbm_to_pmu(&entry);
    let proj = Proj::new(100);
    let mut state = proj.start();
    let tile = proj.output(&mut state, Some(&weight));
    assert_eq!(tile.num_elems, 8);
    assert_eq!(proj.output(&mut state, None).num_elems, 8);
    let step = proj.step(10, Some(7), 5, 6, tile);
    assert_eq!(step.latency, 7);
    assert_eq!((step.compute.start, step.compute.end, step.store.end), (10, 15, 16));
    assert_eq!(proj.step(10, None, 5, 6, tile).latency, 6);

    let qkt = QKt::new(vec![3, 4]);
    assert_eq!(qkt.next_flop(1), Some(4));
    assert_eq!(qkt.next_flop(2), None);
    assert_eq!(qkt.step(1, 9, 4).latency, 9);
}

#[test]
fn rows_are_distributed() {
    let tile = data::Tile { shape: vec![3, 5], bytes_per_elem: 2, read_from_mu: true };
    assert_eq!(tile.size_in_bytes(), 30);
    let row = data::Tile { shape: vec![5], bytes_per_elem: 2, read_from_mu: true };
    let demux = TileDemux::new(3);
    let sent = demux.step(6, &Token::Val(tile.clone()));
    assert_eq!(sent.len(), 3);
    for token in sent {
        assert_eq!(token, (6, Token::Val(row.clone())));
    }
    assert_eq!(demux.step(7, &Token::Stop(2))[2], (7, Token::Stop(2)));

    let other = data::Tile { shape: vec![5, 4], bytes_per_elem: 2, read_from_mu: false };
    let (cycles, product) = matmul(&tile, &other, 7, false);
    assert_eq!(cycles, 18);
    assert_eq!(product, data::Tile { shape: vec![3, 4], bytes_per_elem: 2, read_from_mu: false });
}

#[test]
fn both_ends_of_a_channel_belong_together() {
    let mut map: ChannelMap<(u32, usize), (u32, usize)> = ChannelMap::new(None);
    map.instantiate();
    let snd = map.get_sender(3, None, |cap| ((1, cap), (1, cap)), None);
    let rcv = map.get_receiver(3, None, |cap| ((2, cap), (2, cap)), None);
    assert_eq!(snd, (1, 1024));
    assert_eq!(rcv, snd);
    let rcv = map.get_receiver(4, Some(1), |cap| ((3, cap), (3, cap)), Some(16));
    let other = map.get_receiver(4, Some(2), |cap| ((4, cap), (4, cap)), Some(16));
    let snd = map.get_sender(4, Some(1), |cap| ((5, cap), (5, cap)), Some(16));
    assert_eq!(snd, (3, 16));
    assert_eq!(rcv, snd);
    assert_eq!(other, (4, 16));
    let next = map.get_sender(5, None, |cap| ((6, cap), (6, cap)), None);
    assert_eq!(next, (6, 1024));
}

#[test]
fn traffic_is_counted_in_bytes() {
    let mut stats = HBMTrafficStats::new(64);
    stats.record_read(&ParAddrs::new(vec![0, 64, 128]));
    stats.record_write(&ParAddrs::new(vec![0]));
    assert_eq!(stats.read_bytes(), 192);
    assert_eq!(stats.write_bytes(), 64);
    assert_eq!(stats.total_bytes(), 256);
}
